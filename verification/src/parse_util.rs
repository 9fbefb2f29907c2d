//! Byte-slice scanning helpers shared by the rule-string and RLE parsers.
//!
//! Every helper consumes from the front of a borrowed slice and hands back
//! the rest, so a parser threads one slice through a chain of calls.

use vstd::prelude::*;

verus! {

/// The outcome of expecting a particular byte or slice.
#[derive(Debug)]
pub enum ParseError {
    /// Input ended where `exp` was expected.
    UnexpectedEof { exp: char },
    /// `got` appeared where `exp` was expected.
    UnexpectedToken { exp: char, got: char },
    /// The input did not start with the expected slice.
    UnexpectedSlice { exp: Vec<u8>, got: Vec<u8> },
    /// The whole input was expected to equal the given bytes and did not.
    UnequalInputs { left: Vec<u8>, right: Vec<u8> },
}

pub type ParseResult<T> = Result<T, ParseError>;

/// The bytes Rust calls ASCII whitespace: space, tab, newline, form feed,
/// carriage return.
pub open spec fn is_ws(b: u8) -> bool {
    b == 0x20 || b == 0x09 || b == 0x0A || b == 0x0C || b == 0x0D
}

/// How many leading bytes of `s` satisfy `p`.
pub open spec fn leading_count(s: Seq<u8>, p: spec_fn(u8) -> bool) -> int
    decreases s.len(),
{
    if s.len() == 0 || !p(s[0]) {
        0
    } else {
        1 + leading_count(s.skip(1), p)
    }
}

/// `leading_count` is the index of the first byte failing `p`, or the
/// length when every byte satisfies it.
pub proof fn lemma_leading_count(s: Seq<u8>, p: spec_fn(u8) -> bool)
    ensures
        0 <= leading_count(s, p) <= s.len(),
        forall|j: int| 0 <= j < leading_count(s, p) ==> p(#[trigger] s[j]),
        leading_count(s, p) < s.len() ==> !p(s[leading_count(s, p)]),
    decreases s.len(),
{
    if s.len() > 0 && p(s[0]) {
        lemma_leading_count(s.skip(1), p);
        assert forall|j: int| 0 <= j < leading_count(s, p) implies p(#[trigger] s[j]) by {
            if j > 0 {
                assert(s.skip(1)[j - 1] == s[j]);
            }
        }
        if leading_count(s, p) < s.len() {
            assert(s.skip(1)[leading_count(s, p) - 1] == s[leading_count(s, p)]);
        }
    }
}

/// The number of leading ASCII-whitespace bytes.
pub open spec fn ws_count(s: Seq<u8>) -> int {
    leading_count(s, |b: u8| is_ws(b))
}

/// The whitespace count stays within the slice.
pub proof fn lemma_ws_count(s: Seq<u8>)
    ensures
        0 <= ws_count(s) <= s.len(),
{
    lemma_leading_count(s, |b: u8| is_ws(b));
}

/// Consume the slice until a non-whitespace byte is reached.
pub fn take_ws(bytes: &[u8]) -> (r: &[u8])
    ensures
        r@ == bytes@.subrange(ws_count(bytes@), bytes@.len() as int),
{
    proof {
        lemma_leading_count(bytes@, |b: u8| is_ws(b));
    }
    let n = bytes.len();
    let mut i: usize = 0;
    while i < n && (bytes[i] == 0x20 || bytes[i] == 0x09 || bytes[i] == 0x0A || bytes[i] == 0x0C
        || bytes[i] == 0x0D)
        invariant
            n == bytes@.len(),
            0 <= i <= n,
            forall|j: int| 0 <= j < i ==> is_ws(#[trigger] bytes@[j]),
            i <= ws_count(bytes@),
        decreases n - i,
    {
        proof {
            lemma_leading_count_step(bytes@, |b: u8| is_ws(b), i as int + 1);
        }
        i += 1;
    }
    proof {
        lemma_leading_count(bytes@, |b: u8| is_ws(b));
        assert(i as int == ws_count(bytes@));
    }
    &bytes[i..n]
}

/// If the first `k` bytes all satisfy `p`, the leading count is at least
/// `k`.
proof fn lemma_leading_count_step(s: Seq<u8>, p: spec_fn(u8) -> bool, k: int)
    requires
        0 <= k <= s.len(),
        forall|j: int| 0 <= j < k ==> p(#[trigger] s[j]),
    ensures
        leading_count(s, p) >= k,
    decreases k,
{
    lemma_leading_count(s, p);
    if k > 0 {
        assert(p(s[0]));
        assert forall|j: int| 0 <= j < k - 1 implies p(#[trigger] s.skip(1)[j]) by {
            assert(s.skip(1)[j] == s[j + 1]);
        }
        lemma_leading_count_step(s.skip(1), p, k - 1);
    }
}

/// Take the next byte from the slice. An empty slice is left as-is.
pub fn take_1(bytes: &[u8]) -> (r: (Option<u8>, &[u8]))
    ensures
        bytes@.len() == 0 ==> r.0 is None && r.1@ == bytes@,
        bytes@.len() > 0 ==> r.0 == Some(bytes@[0]) && r.1@ == bytes@.subrange(
            1,
            bytes@.len() as int,
        ),
{
    if bytes.is_empty() {
        (None, bytes)
    } else {
        (Some(bytes[0]), &bytes[1..bytes.len()])
    }
}

/// Like `take_1`, but does not consume the byte.
pub fn peek_1(bytes: &[u8]) -> (r: Option<u8>)
    ensures
        bytes@.len() == 0 ==> r is None,
        bytes@.len() > 0 ==> r == Some(bytes@[0]),
{
    if bytes.is_empty() {
        None
    } else {
        Some(bytes[0])
    }
}

/// Split `bytes` into its first `n` bytes and the rest. If fewer than `n`
/// remain, the slice is left as-is.
pub fn split_n(bytes: &[u8], n: usize) -> (r: (Option<&[u8]>, &[u8]))
    ensures
        n > bytes@.len() ==> r.0 is None && r.1@ == bytes@,
        n <= bytes@.len() ==> (r.0 matches Some(pre) && pre@ == bytes@.subrange(0, n as int)
            && r.1@ == bytes@.subrange(n as int, bytes@.len() as int)),
{
    if n > bytes.len() {
        (None, bytes)
    } else {
        (Some(&bytes[0..n]), &bytes[n..bytes.len()])
    }
}

/// Like `split_n`, but does not consume the slice.
pub fn peek_n(bytes: &[u8], n: usize) -> (r: Option<&[u8]>)
    ensures
        n > bytes@.len() ==> r is None,
        n <= bytes@.len() ==> (r matches Some(pre) && pre@ == bytes@.subrange(0, n as int)),
{
    if n > bytes.len() {
        None
    } else {
        Some(&bytes[0..n])
    }
}

/// Expect the next byte to be `b` and consume it; any other input is an
/// error and the slice is not consumed.
pub fn expect(b: u8, bytes: &[u8]) -> (r: ParseResult<&[u8]>)
    ensures
        match r {
            Ok(rest) => bytes@.len() > 0 && bytes@[0] == b && rest@ == bytes@.subrange(
                1,
                bytes@.len() as int,
            ),
            Err(_) => bytes@.len() == 0 || bytes@[0] != b,
        },
{
    if bytes.is_empty() {
        Err(ParseError::UnexpectedEof { exp: b as char })
    } else if bytes[0] != b {
        Err(ParseError::UnexpectedToken { exp: b as char, got: bytes[0] as char })
    } else {
        Ok(&bytes[1..bytes.len()])
    }
}

/// Expect the input to start with `bs` and consume it.
pub fn expect_slice<'a>(bs: &[u8], bytes: &'a [u8]) -> (r: ParseResult<&'a [u8]>)
    ensures
        match r {
            Ok(rest) => bs@.len() <= bytes@.len() && bytes@.subrange(0, bs@.len() as int) == bs@
                && rest@ == bytes@.subrange(bs@.len() as int, bytes@.len() as int),
            Err(_) => bs@.len() > bytes@.len() || bytes@.subrange(0, bs@.len() as int) != bs@,
        },
{
    if bs.len() > bytes.len() {
        return Err(ParseError::UnexpectedSlice { exp: slice_to_vec(bs), got: slice_to_vec(bytes) });
    }
    let mut i: usize = 0;
    while i < bs.len()
        invariant
            bs@.len() <= bytes@.len(),
            0 <= i <= bs@.len(),
            forall|j: int| 0 <= j < i ==> bs@[j] == bytes@[j],
        decreases bs@.len() - i,
    {
        if bs[i] != bytes[i] {
            proof {
                assert(bytes@.subrange(0, bs@.len() as int)[i as int] != bs@[i as int]);
            }
            return Err(
                ParseError::UnexpectedSlice { exp: slice_to_vec(bs), got: slice_to_vec(bytes) },
            );
        }
        i += 1;
    }
    proof {
        assert(bytes@.subrange(0, bs@.len() as int) =~= bs@);
    }
    Ok(&bytes[bs.len()..bytes.len()])
}

/// Check that the input is exactly the single byte `b`.
pub fn is(b: u8, bytes: &[u8]) -> (r: ParseResult<()>)
    ensures
        r is Ok <==> bytes@ == seq![b],
{
    proof {
        if bytes@.len() == 1 && bytes@[0] == b {
            assert(bytes@ =~= seq![b]);
        }
    }
    if bytes.len() == 1 && bytes[0] == b {
        Ok(())
    } else if bytes.is_empty() || bytes[0] != b {
        Err(ParseError::UnexpectedEof { exp: b as char })
    } else {
        Err(
            ParseError::UnequalInputs {
                left: slice_to_vec(&[b]),
                right: slice_to_vec(bytes),
            },
        )
    }
}

/// Check that the input is exactly the bytes `bs`.
pub fn is_slice(bs: &[u8], bytes: &[u8]) -> (r: ParseResult<()>)
    ensures
        r is Ok <==> bs@ == bytes@,
{
    match expect_slice(bs, bytes) {
        Ok(rest) => {
            if rest.is_empty() {
                proof {
                    assert(bs@ =~= bytes@);
                }
                Ok(())
            } else {
                Err(
                    ParseError::UnequalInputs {
                        left: slice_to_vec(bs),
                        right: slice_to_vec(bytes),
                    },
                )
            }
        },
        Err(e) => {
            proof {
                if bs@ == bytes@ {
                    assert(bytes@.subrange(0, bs@.len() as int) =~= bs@);
                }
            }
            Err(e)
        },
    }
}

/// The index of the first byte equal to `b`, or the length when `b` never
/// occurs.
pub open spec fn until_count(s: Seq<u8>, b: u8) -> int
    decreases s.len(),
{
    if s.len() == 0 || s[0] == b {
        0
    } else {
        1 + until_count(s.skip(1), b)
    }
}

/// `until_count` is the index of the first occurrence of `b`, or the
/// length.
pub proof fn lemma_until_count(s: Seq<u8>, b: u8)
    ensures
        0 <= until_count(s, b) <= s.len(),
        forall|j: int| 0 <= j < until_count(s, b) ==> #[trigger] s[j] != b,
        until_count(s, b) < s.len() ==> s[until_count(s, b)] == b,
    decreases s.len(),
{
    if s.len() > 0 && s[0] != b {
        lemma_until_count(s.skip(1), b);
        assert forall|j: int| 0 <= j < until_count(s, b) implies #[trigger] s[j] != b by {
            if j > 0 {
                assert(s.skip(1)[j - 1] == s[j]);
            }
        }
        if until_count(s, b) < s.len() {
            assert(s.skip(1)[until_count(s, b) - 1] == s[until_count(s, b)]);
        }
    }
}

/// If the first `k` bytes differ from `b`, the count is at least `k`.
proof fn lemma_until_count_step(s: Seq<u8>, b: u8, k: int)
    requires
        0 <= k <= s.len(),
        forall|j: int| 0 <= j < k ==> #[trigger] s[j] != b,
    ensures
        until_count(s, b) >= k,
    decreases k,
{
    lemma_until_count(s, b);
    if k > 0 {
        assert forall|j: int| 0 <= j < k - 1 implies #[trigger] s.skip(1)[j] != b by {
            assert(s.skip(1)[j] == s[j + 1]);
        }
        lemma_until_count_step(s.skip(1), b, k - 1);
    }
}

/// Advance the slice until byte `b` is found, without consuming it. If `b`
/// leads the slice or is never found, the slice is left as-is.
pub fn take_until(b: u8, bytes: &[u8]) -> (r: (Option<&[u8]>, &[u8]))
    ensures
        ({
            let i = until_count(bytes@, b);
            if i == 0 || i == bytes@.len() {
                r.0 is None && r.1@ == bytes@
            } else {
                (r.0 matches Some(pre) && pre@ == bytes@.subrange(0, i)) && r.1@
                    == bytes@.subrange(i, bytes@.len() as int)
            }
        }),
{
    proof {
        lemma_until_count(bytes@, b);
    }
    let n = bytes.len();
    let mut i: usize = 0;
    while i < n && bytes[i] != b
        invariant
            n == bytes@.len(),
            0 <= i <= n,
            forall|j: int| 0 <= j < i ==> #[trigger] bytes@[j] != b,
            i <= until_count(bytes@, b),
        decreases n - i,
    {
        proof {
            lemma_until_count_step(bytes@, b, i as int + 1);
        }
        i += 1;
    }
    proof {
        lemma_until_count(bytes@, b);
        lemma_until_count_step(bytes@, b, i as int);
        assert(i as int == until_count(bytes@, b));
    }
    if i == 0 || i == n {
        (None, bytes)
    } else {
        (Some(&bytes[0..i]), &bytes[i..n])
    }
}

/// The index of the first ASCII-whitespace byte, or the length when none
/// occurs.
pub open spec fn until_ws_count(s: Seq<u8>) -> int
    decreases s.len(),
{
    if s.len() == 0 || is_ws(s[0]) {
        0
    } else {
        1 + until_ws_count(s.skip(1))
    }
}

/// `until_ws_count` is the index of the first whitespace byte, or the
/// length.
pub proof fn lemma_until_ws_count(s: Seq<u8>)
    ensures
        0 <= until_ws_count(s) <= s.len(),
        forall|j: int| 0 <= j < until_ws_count(s) ==> !is_ws(#[trigger] s[j]),
        until_ws_count(s) < s.len() ==> is_ws(s[until_ws_count(s)]),
    decreases s.len(),
{
    if s.len() > 0 && !is_ws(s[0]) {
        lemma_until_ws_count(s.skip(1));
        assert forall|j: int| 0 <= j < until_ws_count(s) implies !is_ws(#[trigger] s[j]) by {
            if j > 0 {
                assert(s.skip(1)[j - 1] == s[j]);
            }
        }
        if until_ws_count(s) < s.len() {
            assert(s.skip(1)[until_ws_count(s) - 1] == s[until_ws_count(s)]);
        }
    }
}

/// If the first `k` bytes are not whitespace, the count is at least `k`.
proof fn lemma_until_ws_count_step(s: Seq<u8>, k: int)
    requires
        0 <= k <= s.len(),
        forall|j: int| 0 <= j < k ==> !is_ws(#[trigger] s[j]),
    ensures
        until_ws_count(s) >= k,
    decreases k,
{
    lemma_until_ws_count(s);
    if k > 0 {
        assert forall|j: int| 0 <= j < k - 1 implies !is_ws(#[trigger] s.skip(1)[j]) by {
            assert(s.skip(1)[j] == s[j + 1]);
        }
        lemma_until_ws_count_step(s.skip(1), k - 1);
    }
}

/// Advance the slice until a whitespace byte is found, without consuming
/// it.
pub fn take_until_ws(bytes: &[u8]) -> (r: (Option<&[u8]>, &[u8]))
    ensures
        ({
            let i = until_ws_count(bytes@);
            if i == 0 || i == bytes@.len() {
                r.0 is None && r.1@ == bytes@
            } else {
                (r.0 matches Some(pre) && pre@ == bytes@.subrange(0, i)) && r.1@
                    == bytes@.subrange(i, bytes@.len() as int)
            }
        }),
{
    proof {
        lemma_until_ws_count(bytes@);
    }
    let n = bytes.len();
    let mut i: usize = 0;
    while i < n && !(bytes[i] == 0x20 || bytes[i] == 0x09 || bytes[i] == 0x0A || bytes[i] == 0x0C
        || bytes[i] == 0x0D)
        invariant
            n == bytes@.len(),
            0 <= i <= n,
            forall|j: int| 0 <= j < i ==> !is_ws(#[trigger] bytes@[j]),
            i <= until_ws_count(bytes@),
        decreases n - i,
    {
        proof {
            lemma_until_ws_count_step(bytes@, i as int + 1);
        }
        i += 1;
    }
    proof {
        lemma_until_ws_count(bytes@);
        lemma_until_ws_count_step(bytes@, i as int);
        assert(i as int == until_ws_count(bytes@));
    }
    if i == 0 || i == n {
        (None, bytes)
    } else {
        (Some(&bytes[0..i]), &bytes[i..n])
    }
}

/// Like `take_until`, but also consumes `b` without adding it to the
/// output.
pub fn take_with(b: u8, bytes: &[u8]) -> (r: (Option<&[u8]>, &[u8]))
    ensures
        ({
            let i = until_count(bytes@, b);
            if i == 0 || i == bytes@.len() {
                r.0 is None && r.1@ == bytes@
            } else {
                (r.0 matches Some(pre) && pre@ == bytes@.subrange(0, i)) && r.1@
                    == bytes@.subrange(i + 1, bytes@.len() as int)
            }
        }),
{
    let (found, rest) = take_until(b, bytes);
    match found {
        None => (None, rest),
        Some(pre) => {
            let (_, rest) = take_1(rest);
            proof {
                lemma_until_count(bytes@, b);
                let i = until_count(bytes@, b);
                assert(bytes@.subrange(i, bytes@.len() as int).subrange(
                    1,
                    bytes@.len() - i,
                ) =~= bytes@.subrange(i + 1, bytes@.len() as int));
            }
            (Some(pre), rest)
        },
    }
}

/// How many leading bytes a blank-line skip consumes: whitespace up to and
/// including the first line break, or up to the first other byte.
pub open spec fn ws_line_count(s: Seq<u8>) -> int
    decreases s.len(),
{
    if s.len() == 0 {
        0
    } else if s[0] == 0x0A || s[0] == 0x0D {
        1
    } else if is_ws(s[0]) {
        1 + ws_line_count(s.skip(1))
    } else {
        0
    }
}

/// `ws_line_count` stays within the slice.
pub proof fn lemma_ws_line_count(s: Seq<u8>)
    ensures
        0 <= ws_line_count(s) <= s.len(),
    decreases s.len(),
{
    if s.len() > 0 && s[0] != 0x0A && s[0] != 0x0D && is_ws(s[0]) {
        lemma_ws_line_count(s.skip(1));
    }
}

/// Like `take_ws` but stops after the first line break, consuming it.
/// Returns whether any bytes were consumed.
pub fn take_ws_line(bytes: &[u8]) -> (r: (bool, &[u8]))
    ensures
        r.1@ == bytes@.subrange(ws_line_count(bytes@), bytes@.len() as int),
        r.0 == (ws_line_count(bytes@) != 0),
{
    let n = bytes.len();
    proof {
        assert(bytes@.skip(0) =~= bytes@);
    }
    let mut j: usize = 0;
    while j < n
        invariant
            n == bytes@.len(),
            0 <= j <= n,
            ws_line_count(bytes@) == j + ws_line_count(bytes@.skip(j as int)),
        decreases n - j,
    {
        let b = bytes[j];
        proof {
            assert(bytes@.skip(j as int)[0] == b);
            assert(bytes@.skip(j as int).skip(1) =~= bytes@.skip(j as int + 1));
        }
        if b == 0x0A || b == 0x0D {
            proof {
                lemma_ws_line_count(bytes@);
            }
            return (true, &bytes[j + 1..n]);
        }
        if !(b == 0x20 || b == 0x09 || b == 0x0C) {
            return (j != 0, &bytes[j..n]);
        }
        j += 1;
    }
    proof {
        assert(bytes@.skip(n as int) =~= Seq::<u8>::empty());
        assert(bytes@.subrange(n as int, n as int) =~= bytes@.skip(n as int));
    }
    (n != 0, &bytes[n..n])
}

/// Like `take_ws_line`, but consumes as many blank lines as possible: the
/// rest neither is blank nor starts with one.
pub fn take_ws_lines(bytes: &[u8]) -> (r: &[u8])
    ensures
        exists|i: int|
            0 <= i <= bytes@.len() && r@ == #[trigger] bytes@.subrange(i, bytes@.len() as int),
        ws_line_count(r@) == 0,
{
    proof {
        assert(bytes@.subrange(0, bytes@.len() as int) =~= bytes@);
    }
    let mut rest = bytes;
    loop
        invariant
            exists|i: int|
                0 <= i <= bytes@.len() && rest@ == #[trigger] bytes@.subrange(
                    i,
                    bytes@.len() as int,
                ),
        ensures
            exists|i: int|
                0 <= i <= bytes@.len() && rest@ == #[trigger] bytes@.subrange(
                    i,
                    bytes@.len() as int,
                ),
            ws_line_count(rest@) == 0,
        decreases rest@.len(),
    {
        proof {
            lemma_ws_line_count(rest@);
        }
        let (consumed, next) = take_ws_line(rest);
        if !consumed {
            return rest;
        }
        proof {
            let i0 = choose|i: int|
                0 <= i <= bytes@.len() && rest@ == #[trigger] bytes@.subrange(
                    i,
                    bytes@.len() as int,
                );
            let c = ws_line_count(rest@);
            assert(next@ =~= bytes@.subrange(i0 + c, bytes@.len() as int));
        }
        rest = next;
    }
}

/// A decimal digit byte.
pub open spec fn is_digit(b: u8) -> bool {
    0x30 <= b <= 0x39
}

/// Every byte of `s` is a decimal digit.
pub open spec fn all_digits(s: Seq<u8>) -> bool {
    forall|j: int| 0 <= j < s.len() ==> is_digit(#[trigger] s[j])
}

/// The value of a digit string, most significant first.
pub open spec fn dec_val(s: Seq<u8>) -> int
    decreases s.len(),
{
    if s.len() == 0 {
        0
    } else {
        dec_val(s.take(s.len() - 1)) * 10 + (s[s.len() - 1] - 0x30)
    }
}

/// A signed decimal numeral: an optional sign followed by at least one
/// digit.
pub open spec fn is_numeral(s: Seq<u8>) -> bool {
    if s.len() == 0 {
        false
    } else if s[0] == 0x2B || s[0] == 0x2D {
        s.len() >= 2 && all_digits(s.skip(1))
    } else {
        all_digits(s)
    }
}

/// The value of a signed decimal numeral.
pub open spec fn numeral_val(s: Seq<u8>) -> int {
    if s.len() > 0 && s[0] == 0x2D {
        -dec_val(s.skip(1))
    } else if s.len() > 0 && s[0] == 0x2B {
        dec_val(s.skip(1))
    } else {
        dec_val(s)
    }
}

/// Magnitudes at or above this bound are rejected by `convert`; every value
/// the pattern formats can use lies far below it.
pub const CONVERT_BOUND: u128 = 0x4000_0000_0000_0000_0000_0000_0000_0000;

/// A numeral was expected and not found, or its magnitude is out of range.
#[derive(PartialEq, Eq, Structural, Clone, Copy, Debug)]
pub enum ConvertError {
    Empty,
    InvalidDigit,
    OutOfRange,
}

/// Convert a decimal numeral, with optional sign, to its value. Succeeds
/// exactly on well-formed numerals of magnitude below `CONVERT_BOUND`.
pub fn convert(bytes: &[u8]) -> (r: Result<i128, ConvertError>)
    ensures
        match r {
            Ok(v) => is_numeral(bytes@) && -(CONVERT_BOUND as int) < v < CONVERT_BOUND as int && v
                == numeral_val(bytes@),
            Err(_) => !is_numeral(bytes@) || numeral_val(bytes@) >= CONVERT_BOUND as int
                || numeral_val(bytes@) <= -(CONVERT_BOUND as int),
        },
{
    if bytes.is_empty() {
        return Err(ConvertError::Empty);
    }
    let negative = bytes[0] == 0x2D;
    let start: usize = if bytes[0] == 0x2B || bytes[0] == 0x2D {
        1
    } else {
        0
    };
    let ghost digits = bytes@.skip(start as int);
    proof {
        if start == 0 {
            assert(digits =~= bytes@);
        }
    }
    if start == bytes.len() {
        return Err(ConvertError::Empty);
    }
    let n = bytes.len();
    let mut acc: u128 = 0;
    let mut i: usize = start;
    while i < n
        invariant
            start <= i <= n,
            n == bytes@.len(),
            start < n,
            start == 0 || start == 1,
            digits == bytes@.skip(start as int),
            start == 0 ==> digits == bytes@,
            start == 1 ==> bytes@[0] == 0x2B || bytes@[0] == 0x2D,
            start == 0 ==> !(bytes@[0] == 0x2B || bytes@[0] == 0x2D),
            negative == (bytes@[0] == 0x2D),
            forall|j: int| start <= j < i ==> is_digit(#[trigger] bytes@[j]),
            acc < CONVERT_BOUND,
            acc == dec_val(bytes@.subrange(start as int, i as int)),
        decreases n - i,
    {
        let b = bytes[i];
        if !(0x30 <= b && b <= 0x39) {
            proof {
                assert(digits[i - start] == bytes@[i as int]);
                assert(!all_digits(digits));
                assert(!is_numeral(bytes@));
            }
            return Err(ConvertError::InvalidDigit);
        }
        let d = (b - 0x30) as u128;
        if acc >= CONVERT_BOUND / 10 + 1 {
            proof {
                assert(bytes@.subrange(start as int, i + 1).take(i - start) =~= bytes@.subrange(
                    start as int,
                    i as int,
                ));
                assert(bytes@.subrange(start as int, i + 1).take(i + 1 - start) =~= bytes@.subrange(
                    start as int,
                    i + 1,
                ).take(i - start + 1));
                assert(bytes@.subrange(start as int, i + 1)[i - start] == bytes@[i as int]);
                assert(dec_val(bytes@.subrange(start as int, i + 1)) >= CONVERT_BOUND as int);
                lemma_dec_val_grows(bytes@, start as int, i + 1, n as int);
                lemma_out_of_range(bytes@, digits, start as int, negative);
            }
            return Err(ConvertError::OutOfRange);
        }
        acc = acc * 10 + d;
        proof {
            assert(bytes@.subrange(start as int, i + 1).take(i + 1 - start) =~= bytes@.subrange(
                start as int,
                i + 1,
            ).take(i - start + 1));
            assert(bytes@.subrange(start as int, i + 1).take(i - start) =~= bytes@.subrange(
                start as int,
                i as int,
            ));
            assert(bytes@.subrange(start as int, i + 1)[i - start] == bytes@[i as int]);
        }
        i += 1;
        if acc >= CONVERT_BOUND {
            proof {
                lemma_dec_val_grows(bytes@, start as int, i as int, n as int);
                lemma_out_of_range(bytes@, digits, start as int, negative);
            }
            return Err(ConvertError::OutOfRange);
        }
    }
    proof {
        assert(bytes@.subrange(start as int, n as int) =~= digits);
        assert forall|j: int| 0 <= j < digits.len() implies is_digit(#[trigger] digits[j]) by {
            assert(digits[j] == bytes@[start + j]);
        }
        assert(is_numeral(bytes@));
        lemma_dec_val_nonneg(digits);
    }
    if negative {
        Ok(-(acc as i128))
    } else {
        Ok(acc as i128)
    }
}

/// When the digit part of a numeral reaches the conversion bound, the
/// numeral's value is out of range in the direction of its sign, or the
/// string is not a numeral at all.
proof fn lemma_out_of_range(s: Seq<u8>, digits: Seq<u8>, start: int, negative: bool)
    requires
        start == 0 || start == 1,
        start < s.len(),
        digits == s.skip(start),
        start == 1 ==> s[0] == 0x2B || s[0] == 0x2D,
        start == 0 ==> !(s[0] == 0x2B || s[0] == 0x2D),
        start == 0 ==> digits == s,
        negative == (s[0] == 0x2D),
        dec_val(s.subrange(start, s.len() as int)) >= CONVERT_BOUND as int || !all_digits(
            s.subrange(start, s.len() as int),
        ),
    ensures
        !is_numeral(s) || numeral_val(s) >= CONVERT_BOUND as int || numeral_val(s) <= -(
        CONVERT_BOUND as int),
{
    assert(s.subrange(start, s.len() as int) =~= digits);
    if is_numeral(s) {
        assert(all_digits(digits));
        assert(dec_val(digits) >= CONVERT_BOUND as int);
    }
}

/// Extending a digit string never shrinks its value: once a prefix reaches
/// the conversion bound the whole numeral is out of range.
proof fn lemma_dec_val_grows(s: Seq<u8>, start: int, i: int, n: int)
    requires
        0 <= start <= i <= n <= s.len(),
        forall|j: int| start <= j < i ==> is_digit(#[trigger] s[j]),
    ensures
        dec_val(s.subrange(start, n)) >= dec_val(s.subrange(start, i)) || !all_digits(
            s.subrange(start, n),
        ),
    decreases n - i,
{
    if i < n {
        if all_digits(s.subrange(start, n)) {
            assert(is_digit(s[i])) by {
                assert(s.subrange(start, n)[i - start] == s[i]);
            }
            lemma_dec_val_grows(s, start, i + 1, n);
            assert(s.subrange(start, i + 1).take(i - start) =~= s.subrange(start, i));
            assert(dec_val(s.subrange(start, i + 1)) == dec_val(s.subrange(start, i)) * 10 + (
            s.subrange(start, i + 1)[i - start] - 0x30));
            lemma_dec_val_nonneg(s.subrange(start, i));
        }
    }
}

/// Digit strings have non-negative values.
pub proof fn lemma_dec_val_nonneg(s: Seq<u8>)
    ensures
        all_digits(s) ==> dec_val(s) >= 0,
    decreases s.len(),
{
    if s.len() > 0 {
        lemma_dec_val_nonneg(s.take(s.len() - 1));
        assert(all_digits(s) ==> all_digits(s.take(s.len() - 1))) by {
            if all_digits(s) {
                assert forall|j: int|
                    0 <= j < s.len() - 1 implies is_digit(#[trigger] s.take(s.len() - 1)[j]) by {
                    assert(s.take(s.len() - 1)[j] == s[j]);
                }
            }
        }
    }
}

/// Copy a borrowed slice into an owned vector.
fn slice_to_vec(bytes: &[u8]) -> (r: Vec<u8>)
    ensures
        r@ == bytes@,
{
    let mut v: Vec<u8> = Vec::new();
    let mut i: usize = 0;
    while i < bytes.len()
        invariant
            0 <= i <= bytes@.len(),
            v@ == bytes@.subrange(0, i as int),
        decreases bytes@.len() - i,
    {
        v.push(bytes[i]);
        proof {
            assert(v@ =~= bytes@.subrange(0, i + 1));
        }
        i += 1;
    }
    proof {
        assert(bytes@.subrange(0, bytes@.len() as int) =~= bytes@);
    }
    v
}

} // verus!
