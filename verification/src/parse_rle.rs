//! The RLE pattern parser: comment lines, the header line, and the
//! run-length-encoded payload, yielding the pattern metadata and the list
//! of live-cell coordinates.
//!
//! See the Run Length Encoded format as used by the pattern collections.

use vstd::prelude::*;

verus! {

use crate::WorldOffset;
use crate::parse_util;
use crate::parse_util::ParseError;
use crate::parse_util::all_digits;
use crate::parse_util::dec_val;
use crate::parse_util::is_digit;
use crate::parse_util::is_numeral;
use crate::parse_util::numeral_val;
use crate::parse_util::until_count;
use crate::parse_util::lemma_until_count;
use crate::parse_util::ws_count;
use crate::parse_util::CONVERT_BOUND;
use crate::rule_set::RuleError;
use crate::rule_set::RuleExtension;
use crate::rule_set::RuleSet;
use crate::rule_set::spec_nameless_body;
use crate::rule_set::spec_parse_ext;

pub use crate::parse_util::ConvertError;

/// Coordinates whose magnitude reaches this bound are refused while
/// reading a payload; no real pattern comes near it.
pub const COORD_BOUND: i128 = 0x100_0000_0000_0000_0000_0000_0000_0000;

/// The metadata of a parsed RLE file.
#[derive(Debug)]
pub struct RleFile {
    /// The pattern name from a `#N` line.
    pub name: Option<Vec<u8>>,
    /// The author from a `#O` line.
    pub author: Option<Vec<u8>>,
    /// The origin offset from a `#R`/`#P` line or from the header
    /// dimensions.
    pub offset: Option<(WorldOffset, WorldOffset)>,
    /// The rule, from a `#r` line or the header; Conway's Life when absent.
    pub set: RuleSet,
}

/// Why an RLE file was rejected.
#[derive(Debug)]
pub enum RleError {
    CommentLine(RleCommentLineError),
    HeaderLine(RleHeaderLineError),
    Encoding(RleEncodingError),
    DuplicateName,
    DuplicateAuthor,
    DuplicateOffset,
}

/// Why a comment line was rejected.
#[derive(Debug)]
pub enum RleCommentLineError {
    NoType,
    EmptyName,
    EmptyAuthor,
    InvalidRule(RuleError),
    InvalidCoord(RleCoordError),
    InvalidType { got: char },
}

/// Why a header line was rejected.
#[derive(Debug)]
pub enum RleHeaderLineError {
    ParseError(ParseError),
    InvalidToken { got: char },
    InvalidRule(RuleError),
}

/// Why a payload was rejected.
#[derive(Debug)]
pub enum RleEncodingError {
    UnexpectedEof,
    RunLength(ConvertError),
    UnrecognizedByte { got: u8 },
}

/// Why a coordinate pair was rejected.
#[derive(Debug)]
pub enum RleCoordError {
    ParseError(ParseError),
    NoX,
    ParseX(ConvertError),
    NoY,
    ParseY(ConvertError),
}

/// The index of the first comma or line feed, or the length when neither
/// occurs.
pub open spec fn until_cn_count(s: Seq<u8>) -> int
    decreases s.len(),
{
    if s.len() == 0 || s[0] == 0x2C || s[0] == 0x0A {
        0
    } else {
        1 + until_cn_count(s.skip(1))
    }
}

proof fn lemma_until_cn_count(s: Seq<u8>)
    ensures
        0 <= until_cn_count(s) <= s.len(),
        forall|j: int| 0 <= j < until_cn_count(s) ==> #[trigger] s[j] != 0x2C && s[j] != 0x0A,
        until_cn_count(s) < s.len() ==> (s[until_cn_count(s)] == 0x2C || s[until_cn_count(s)]
            == 0x0A),
    decreases s.len(),
{
    if s.len() > 0 && s[0] != 0x2C && s[0] != 0x0A {
        lemma_until_cn_count(s.skip(1));
        assert forall|j: int| 0 <= j < until_cn_count(s) implies #[trigger] s[j] != 0x2C && s[j]
            != 0x0A by {
            if j > 0 {
                assert(s.skip(1)[j - 1] == s[j]);
            }
        }
        if until_cn_count(s) < s.len() {
            assert(s.skip(1)[until_cn_count(s) - 1] == s[until_cn_count(s)]);
        }
    }
}

proof fn lemma_until_cn_count_step(s: Seq<u8>, k: int)
    requires
        0 <= k <= s.len(),
        forall|j: int| 0 <= j < k ==> #[trigger] s[j] != 0x2C && s[j] != 0x0A,
    ensures
        until_cn_count(s) >= k,
    decreases k,
{
    lemma_until_cn_count(s);
    if k > 0 {
        assert forall|j: int| 0 <= j < k - 1 implies #[trigger] s.skip(1)[j] != 0x2C && s.skip(
            1,
        )[j] != 0x0A by {
            assert(s.skip(1)[j] == s[j + 1]);
        }
        lemma_until_cn_count_step(s.skip(1), k - 1);
    }
}

/// Advance until a comma or line feed, without consuming it, under the
/// conventions of `take_until`.
fn take_until_cn(bytes: &[u8]) -> (r: (Option<&[u8]>, &[u8]))
    ensures
        ({
            let i = until_cn_count(bytes@);
            if i == 0 || i == bytes@.len() {
                r.0 is None && r.1@ == bytes@
            } else {
                (r.0 matches Some(pre) && pre@ == bytes@.subrange(0, i)) && r.1@
                    == bytes@.subrange(i, bytes@.len() as int)
            }
        }),
{
    proof {
        lemma_until_cn_count(bytes@);
    }
    let n = bytes.len();
    let mut i: usize = 0;
    while i < n && !(bytes[i] == 0x2C || bytes[i] == 0x0A)
        invariant
            n == bytes@.len(),
            0 <= i <= n,
            forall|j: int| 0 <= j < i ==> #[trigger] bytes@[j] != 0x2C && bytes@[j] != 0x0A,
        decreases n - i,
    {
        i += 1;
    }
    proof {
        lemma_until_cn_count(bytes@);
        lemma_until_cn_count_step(bytes@, i as int);
        assert(i as int == until_cn_count(bytes@));
    }
    if i == 0 || i == n {
        (None, bytes)
    } else {
        (Some(&bytes[0..i]), &bytes[i..n])
    }
}

/// The index of the first non-digit, or the length when all bytes are
/// digits.
pub open spec fn digit_run(s: Seq<u8>) -> nat
    decreases s.len(),
{
    if s.len() == 0 || !is_digit(s[0]) {
        0
    } else {
        1 + digit_run(s.skip(1))
    }
}

proof fn lemma_digit_run(s: Seq<u8>)
    ensures
        0 <= digit_run(s) <= s.len(),
        forall|j: int| 0 <= j < digit_run(s) ==> is_digit(#[trigger] s[j]),
        digit_run(s) < s.len() ==> !is_digit(s[digit_run(s) as int]),
    decreases s.len(),
{
    if s.len() > 0 && is_digit(s[0]) {
        lemma_digit_run(s.skip(1));
        assert forall|j: int| 0 <= j < digit_run(s) implies is_digit(#[trigger] s[j]) by {
            if j > 0 {
                assert(s.skip(1)[j - 1] == s[j]);
            }
        }
        if digit_run(s) < s.len() {
            assert(s.skip(1)[digit_run(s) - 1] == s[digit_run(s) as int]);
        }
    }
}

proof fn lemma_digit_run_step(s: Seq<u8>, k: int)
    requires
        0 <= k <= s.len(),
        forall|j: int| 0 <= j < k ==> is_digit(#[trigger] s[j]),
    ensures
        digit_run(s) >= k,
    decreases k,
{
    lemma_digit_run(s);
    if k > 0 {
        assert forall|j: int| 0 <= j < k - 1 implies is_digit(#[trigger] s.skip(1)[j]) by {
            assert(s.skip(1)[j] == s[j + 1]);
        }
        lemma_digit_run_step(s.skip(1), k - 1);
    }
}

/// Take the leading run of digits and the rest of the slice.
fn take_digit_run(bytes: &[u8]) -> (r: (&[u8], &[u8]))
    ensures
        r.0@ == bytes@.subrange(0, digit_run(bytes@) as int),
        r.1@ == bytes@.subrange(digit_run(bytes@) as int, bytes@.len() as int),
{
    proof {
        lemma_digit_run(bytes@);
    }
    let n = bytes.len();
    let mut i: usize = 0;
    while i < n && 0x30 <= bytes[i] && bytes[i] <= 0x39
        invariant
            n == bytes@.len(),
            0 <= i <= n,
            forall|j: int| 0 <= j < i ==> is_digit(#[trigger] bytes@[j]),
        decreases n - i,
    {
        i += 1;
    }
    proof {
        lemma_digit_run(bytes@);
        lemma_digit_run_step(bytes@, i as int);
        assert(i as int == digit_run(bytes@));
    }
    (&bytes[0..i], &bytes[i..n])
}

/// A coordinate pair `x = <int>, y = <int>` up to but not including the
/// comma or line feed that ends the `y` numeral.
pub open spec fn spec_read_coordinates(s: Seq<u8>) -> Option<(int, int, Seq<u8>)> {
    if s.len() == 0 || s[0] != 0x78 {
        None
    } else {
        let a = s.skip(1);
        let b = a.skip(ws_count(a));
        if b.len() == 0 || b[0] != 0x3D {
            None
        } else {
            let c = b.skip(1);
            let d = c.skip(ws_count(c));
            let i = until_count(d, 0x2C);
            if i == 0 || i == d.len() {
                None
            } else if !(is_numeral(d.subrange(0, i)) && -(CONVERT_BOUND as int) < numeral_val(
                d.subrange(0, i),
            ) < CONVERT_BOUND as int) {
                None
            } else {
                let e = d.skip(i + 1);
                let f = e.skip(ws_count(e));
                if f.len() == 0 || f[0] != 0x79 {
                    None
                } else {
                    let g = f.skip(1);
                    let h = g.skip(ws_count(g));
                    if h.len() == 0 || h[0] != 0x3D {
                        None
                    } else {
                        let k = h.skip(1);
                        let m = k.skip(ws_count(k));
                        let j = until_cn_count(m);
                        if j == 0 || j == m.len() {
                            None
                        } else if !(is_numeral(m.subrange(0, j)) && -(CONVERT_BOUND as int)
                            < numeral_val(m.subrange(0, j)) < CONVERT_BOUND as int) {
                            None
                        } else {
                            Some(
                                (
                                    numeral_val(d.subrange(0, i)),
                                    numeral_val(m.subrange(0, j)),
                                    m.skip(j),
                                ),
                            )
                        }
                    }
                }
            }
        }
    }
}

/// Parse `x = <int>, y = <int>`, leaving the byte that ended the `y`
/// numeral unconsumed. Succeeds exactly when the input starts with a
/// well-formed coordinate pair.
pub fn read_coordinates(bytes: &[u8]) -> (r: Result<((WorldOffset, WorldOffset), &[u8]), RleCoordError>)
    ensures
        match r {
            Ok(p) => spec_read_coordinates(bytes@) == Some(
                ((p.0).0 as int, (p.0).1 as int, p.1@),
            ),
            Err(_) => spec_read_coordinates(bytes@) is None,
        },
{
    let rest = match parse_util::expect(0x78, bytes) {
        Ok(rest) => rest,
        Err(e) => {
            return Err(RleCoordError::ParseError(e));
        },
    };
    proof {
        assert(bytes@.subrange(1, bytes@.len() as int) =~= bytes@.skip(1));
    }
    let rest = parse_util::take_ws(rest);
    let ghost a = bytes@.skip(1);
    proof {
        assert(a.subrange(ws_count(a), a.len() as int) =~= a.skip(ws_count(a)));
    }
    let rest = match parse_util::expect(0x3D, rest) {
        Ok(rest) => rest,
        Err(e) => {
            return Err(RleCoordError::ParseError(e));
        },
    };
    let ghost b = a.skip(ws_count(a));
    proof {
        assert(b.subrange(1, b.len() as int) =~= b.skip(1));
    }
    let rest = parse_util::take_ws(rest);
    let ghost c = b.skip(1);
    proof {
        assert(c.subrange(ws_count(c), c.len() as int) =~= c.skip(ws_count(c)));
    }
    let ghost d = c.skip(ws_count(c));
    let (x_bytes, rest) = parse_util::take_with(0x2C, rest);
    let x_bytes = match x_bytes {
        Some(xb) => xb,
        None => {
            return Err(RleCoordError::NoX);
        },
    };
    let x = match parse_util::convert(x_bytes) {
        Ok(v) => v,
        Err(e) => {
            return Err(RleCoordError::ParseX(e));
        },
    };
    let ghost i = until_count(d, 0x2C);
    proof {
        assert(d.subrange(i + 1, d.len() as int) =~= d.skip(i + 1));
    }
    let rest = parse_util::take_ws(rest);
    let ghost e = d.skip(i + 1);
    proof {
        assert(e.subrange(ws_count(e), e.len() as int) =~= e.skip(ws_count(e)));
    }
    let rest = match parse_util::expect(0x79, rest) {
        Ok(rest) => rest,
        Err(err) => {
            return Err(RleCoordError::ParseError(err));
        },
    };
    let ghost f = e.skip(ws_count(e));
    proof {
        assert(f.subrange(1, f.len() as int) =~= f.skip(1));
    }
    let rest = parse_util::take_ws(rest);
    let ghost g = f.skip(1);
    proof {
        assert(g.subrange(ws_count(g), g.len() as int) =~= g.skip(ws_count(g)));
    }
    let rest = match parse_util::expect(0x3D, rest) {
        Ok(rest) => rest,
        Err(err) => {
            return Err(RleCoordError::ParseError(err));
        },
    };
    let ghost h = g.skip(ws_count(g));
    proof {
        assert(h.subrange(1, h.len() as int) =~= h.skip(1));
    }
    let rest = parse_util::take_ws(rest);
    let ghost k = h.skip(1);
    proof {
        assert(k.subrange(ws_count(k), k.len() as int) =~= k.skip(ws_count(k)));
    }
    let ghost m = k.skip(ws_count(k));
    let (y_bytes, rest) = take_until_cn(rest);
    let y_bytes = match y_bytes {
        Some(yb) => yb,
        None => {
            return Err(RleCoordError::NoY);
        },
    };
    let y = match parse_util::convert(y_bytes) {
        Ok(v) => v,
        Err(err) => {
            return Err(RleCoordError::ParseY(err));
        },
    };
    let ghost j = until_cn_count(m);
    proof {
        assert(m.subrange(j, m.len() as int) =~= m.skip(j));
    }
    Ok(((x, y), rest))
}

/// The run of `rep` live cells starting at `(x, y)`, in pattern-relative
/// coordinates.
pub open spec fn run_coords(x: int, y: int, rep: int) -> Seq<(int, int)> {
    Seq::new(rep as nat, |i: int| (x + i, y))
}

/// The live cells a payload emits, in pattern-relative coordinates,
/// starting from cursor `(x, y)` with pending repeat count `rep`: `b`
/// skips, `o` emits, `$` ends the row, a digit run sets the count, and `!`
/// ends the input. `None` is any malformed or truncated payload, or one
/// whose coordinates run away beyond `COORD_BOUND`.
pub open spec fn spec_encoding(s: Seq<u8>, x: int, y: int, rep: int) -> Option<Seq<(int, int)>>
    decreases s.len(),
{
    if s.len() == 0 {
        None
    } else if s[0] == 0x0D || s[0] == 0x0A {
        spec_encoding(s.skip(1), x, y, rep)
    } else if s[0] == 0x21 {
        Some(Seq::empty())
    } else if s[0] == 0x62 {
        if x + rep >= COORD_BOUND as int {
            None
        } else {
            spec_encoding(s.skip(1), x + rep, y, 1)
        }
    } else if s[0] == 0x6F {
        if x + rep >= COORD_BOUND as int {
            None
        } else {
            match spec_encoding(s.skip(1), x + rep, y, 1) {
                Some(t) => Some(run_coords(x, y, rep) + t),
                None => None,
            }
        }
    } else if s[0] == 0x24 {
        if y - rep <= -(COORD_BOUND as int) {
            None
        } else {
            spec_encoding(s.skip(1), 0, y - rep, 1)
        }
    } else if is_digit(s[0]) {
        let j = digit_run(s) as int;
        if j >= s.len() {
            None
        } else if dec_val(s.subrange(0, j)) > u64::MAX {
            None
        } else if s[j] == 0x0A {
            None
        } else {
            spec_encoding(s.skip(j), x, y, dec_val(s.subrange(0, j)))
        }
    } else {
        None
    }
}

/// Read the payload, adding the offset `(dx, dy)` to every emitted
/// coordinate. Succeeds exactly when the payload is well-formed, and then
/// returns exactly the coordinates the format describes.
#[verifier::rlimit(60)]
pub fn read_encoding(bytes: &[u8], dx: WorldOffset, dy: WorldOffset) -> (r: Result<
    Vec<(WorldOffset, WorldOffset)>,
    RleEncodingError,
>)
    requires
        -(CONVERT_BOUND as int) < dx < CONVERT_BOUND as int,
        -(CONVERT_BOUND as int) < dy < CONVERT_BOUND as int,
    ensures
        match r {
            Ok(v) => ({
                &&& spec_encoding(bytes@, 0, 0, 1) matches Some(cs)
                &&& v@.len() == cs.len()
                &&& forall|k: int|
                    0 <= k < cs.len() ==> (#[trigger] v@[k]).0 == dx + cs[k].0 && v@[k].1 == dy
                        + cs[k].1
            }),
            Err(_) => spec_encoding(bytes@, 0, 0, 1) is None,
        },
{
    let mut rest = bytes;
    let mut x: i128 = 0;
    let mut y: i128 = 0;
    let mut rep: u64 = 1;
    let mut out: Vec<(WorldOffset, WorldOffset)> = Vec::new();
    let ghost acc: Seq<(int, int)> = Seq::empty();
    let mut acc = Ghost(acc);
    loop
        invariant
            -(CONVERT_BOUND as int) < dx < CONVERT_BOUND as int,
            -(CONVERT_BOUND as int) < dy < CONVERT_BOUND as int,
            -(COORD_BOUND as int) < x < COORD_BOUND as int,
            -(COORD_BOUND as int) < y <= 0,
            out@.len() == acc@.len(),
            forall|k: int|
                0 <= k < acc@.len() ==> (#[trigger] out@[k]).0 == dx + acc@[k].0 && out@[k].1
                    == dy + acc@[k].1,
            forall|k: int|
                0 <= k < acc@.len() ==> -(COORD_BOUND as int) < (#[trigger] acc@[k]).0
                    < COORD_BOUND as int && -(COORD_BOUND as int) < acc@[k].1 <= 0,
            match spec_encoding(rest@, x as int, y as int, rep as int) {
                Some(t) => spec_encoding(bytes@, 0, 0, 1) == Some(acc@ + t),
                None => spec_encoding(bytes@, 0, 0, 1) is None,
            },
        ensures
            match spec_encoding(rest@, x as int, y as int, rep as int) {
                Some(t) => spec_encoding(bytes@, 0, 0, 1) == Some(acc@ + t),
                None => spec_encoding(bytes@, 0, 0, 1) is None,
            },
            out@.len() == acc@.len(),
            forall|k: int|
                0 <= k < acc@.len() ==> (#[trigger] out@[k]).0 == dx + acc@[k].0 && out@[k].1
                    == dy + acc@[k].1,
            rest@.len() > 0 && rest@[0] == 0x21,
        decreases rest@.len(),
    {
        if rest.is_empty() {
            return Err(RleEncodingError::UnexpectedEof);
        }
        let b = rest[0];
        proof {
            assert(rest@.subrange(1, rest@.len() as int) =~= rest@.skip(1));
        }
        if b == 0x0D || b == 0x0A {
            rest = &rest[1..rest.len()];
        } else if b == 0x21 {
            break ;
        } else if b == 0x62 {
            if x >= COORD_BOUND - (rep as i128) {
                return Err(RleEncodingError::RunLength(ConvertError::OutOfRange));
            }
            x = x + rep as i128;
            rep = 1;
            rest = &rest[1..rest.len()];
        } else if b == 0x6F {
            if x >= COORD_BOUND - (rep as i128) {
                return Err(RleEncodingError::RunLength(ConvertError::OutOfRange));
            }
            let ghost acc0 = acc@;
            let ghost x0 = x as int;
            let ghost y0 = y as int;
            let ghost rep0 = rep as int;
            let ghost rest0 = rest@;
            proof {
                assert(acc@ =~= acc0 + run_coords(x0, y0, 0));
            }
            let mut i: u64 = 0;
            while i < rep
                invariant
                    0 <= i <= rep,
                    -(COORD_BOUND as int) < x,
                    x + rep < COORD_BOUND as int,
                    -(COORD_BOUND as int) < y <= 0,
                    -(CONVERT_BOUND as int) < dx < CONVERT_BOUND as int,
                    -(CONVERT_BOUND as int) < dy < CONVERT_BOUND as int,
                    out@.len() == acc@.len(),
                    acc@ == acc0 + run_coords(x as int, y as int, i as int),
                    forall|k: int|
                        0 <= k < acc@.len() ==> (#[trigger] out@[k]).0 == dx + acc@[k].0
                            && out@[k].1 == dy + acc@[k].1,
                    forall|k: int|
                        0 <= k < acc@.len() ==> -(COORD_BOUND as int) < (#[trigger] acc@[k]).0
                            < COORD_BOUND as int && -(COORD_BOUND as int) < acc@[k].1 <= 0,
                decreases rep - i,
            {
                out.push((dx + x + i as i128, dy + y));
                proof {
                    acc@ = acc@.push(((x + i) as int, y as int));
                    assert(acc@ =~= acc0 + run_coords(x as int, y as int, i as int + 1));
                }
                i += 1;
            }
            x = x + rep as i128;
            rep = 1;
            rest = &rest[1..rest.len()];
            proof {
                assert(rest@ =~= rest0.skip(1));
                assert(acc@ == acc0 + run_coords(x0, y0, rep0));
                if spec_encoding(rest@, x as int, y as int, 1) is Some {
                    let t = spec_encoding(rest@, x as int, y as int, 1)->0;
                    assert(acc0 + (run_coords(x0, y0, rep0) + t) =~= (acc0 + run_coords(
                        x0,
                        y0,
                        rep0,
                    )) + t);
                }
            }
        } else if b == 0x24 {
            if y <= -(COORD_BOUND - (rep as i128)) {
                return Err(RleEncodingError::RunLength(ConvertError::OutOfRange));
            }
            y = y - rep as i128;
            x = 0;
            rep = 1;
            rest = &rest[1..rest.len()];
        } else if 0x30 <= b && b <= 0x39 {
            let (digits, after) = take_digit_run(rest);
            proof {
                lemma_digit_run(rest@);
                assert(rest@.subrange(digit_run(rest@) as int, rest@.len() as int) =~= rest@.skip(
                    digit_run(rest@) as int,
                ));
                assert(all_digits(digits@)) by {
                    assert forall|j2: int| 0 <= j2 < digits@.len() implies is_digit(
                        #[trigger] digits@[j2],
                    ) by {
                        assert(digits@[j2] == rest@[j2]);
                    }
                }
                assert(is_numeral(digits@));
                assert(numeral_val(digits@) == dec_val(digits@));
                crate::parse_util::lemma_dec_val_nonneg(digits@);
            }
            if after.is_empty() {
                return Err(RleEncodingError::UnexpectedEof);
            }
            let v = match parse_util::convert(digits) {
                Ok(v) => v,
                Err(e) => {
                    return Err(RleEncodingError::RunLength(e));
                },
            };
            if v > u64::MAX as i128 {
                return Err(RleEncodingError::RunLength(ConvertError::OutOfRange));
            }
            if after[0] == 0x0A {
                return Err(RleEncodingError::UnrecognizedByte { got: 0x0A });
            }
            rep = v as u64;
            rest = after;
        } else {
            return Err(RleEncodingError::UnrecognizedByte { got: b });
        }
    }
    proof {
        assert(spec_encoding(rest@, x as int, y as int, rep as int) == Some(
            Seq::<(int, int)>::empty(),
        ));
        assert(acc@ + Seq::<(int, int)>::empty() =~= acc@);
    }
    Ok(out)
}

/// One recognized comment line, at the specification level.
pub enum RleLineSpec {
    Comment,
    Name(Seq<u8>),
    Author(Seq<u8>),
    Offset(int, int),
    Rule(u16, u16, Option<RuleExtension>),
}

/// A rule body with its optional topology suffix, as the masks and
/// extension it denotes and the rest of the input.
pub open spec fn spec_rule_with_ext(s: Seq<u8>) -> Option<
    ((u16, u16, Option<RuleExtension>), Seq<u8>),
> {
    match spec_nameless_body(s) {
        None => None,
        Some((b, sv, mid)) => if mid.len() > 0 && mid[0] == 0x3A {
            match spec_parse_ext(mid) {
                None => None,
                Some((e, r2)) => Some(((b, sv, Some(e)), r2)),
            }
        } else {
            Some(((b, sv, None), mid))
        },
    }
}

/// A full rule string with its optional topology suffix: a `b` or `B`
/// marker, then the marked body.
pub open spec fn spec_named_rule_with_ext(s: Seq<u8>) -> Option<
    ((u16, u16, Option<RuleExtension>), Seq<u8>),
> {
    if s.len() == 0 || !(s[0] == 0x62 || s[0] == 0x42) {
        None
    } else {
        match crate::rule_set::spec_rule_body(s.skip(1)) {
            None => None,
            Some((b, sv, mid)) => if mid.len() > 0 && mid[0] == 0x3A {
                match spec_parse_ext(mid) {
                    None => None,
                    Some((e, r2)) => Some(((b, sv, Some(e)), r2)),
                }
            } else {
                Some(((b, sv, None), mid))
            },
        }
    }
}

/// One comment line: `None` on a malformed line, `Some((None, s))` when
/// the input does not start with `#`, and otherwise the recognized line
/// and the rest of the input.
pub open spec fn spec_comment_line(s: Seq<u8>) -> Option<(Option<RleLineSpec>, Seq<u8>)> {
    if s.len() == 0 || s[0] != 0x23 {
        Some((None, s))
    } else {
        let t = s.skip(1);
        if t.len() == 0 {
            None
        } else {
            let b = t[0];
            let u = t.skip(1);
            if b == 0x43 || b == 0x63 {
                let i = until_count(u, 0x0A);
                if i == 0 || i == u.len() {
                    Some((Some(RleLineSpec::Comment), u))
                } else {
                    Some((Some(RleLineSpec::Comment), u.skip(i + 1)))
                }
            } else if b == 0x4E {
                let w = u.skip(ws_count(u));
                let i = until_count(w, 0x0A);
                if i == 0 || i == w.len() {
                    None
                } else {
                    Some((Some(RleLineSpec::Name(w.subrange(0, i))), w.skip(i + 1)))
                }
            } else if b == 0x4F {
                let w = u.skip(ws_count(u));
                let i = until_count(w, 0x0A);
                if i == 0 || i == w.len() {
                    None
                } else {
                    Some((Some(RleLineSpec::Author(w.subrange(0, i))), w.skip(i + 1)))
                }
            } else if b == 0x52 || b == 0x50 {
                let w = u.skip(ws_count(u));
                match spec_read_coordinates(w) {
                    None => None,
                    Some((x, y, rest)) => Some((Some(RleLineSpec::Offset(x, y)), rest)),
                }
            } else if b == 0x72 {
                let w = u.skip(ws_count(u));
                match spec_rule_with_ext(w) {
                    None => None,
                    Some(((bm, sm, e), rest)) => Some(
                        (Some(RleLineSpec::Rule(bm, sm, e)), rest.skip(ws_count(rest))),
                    ),
                }
            } else {
                None
            }
        }
    }
}

/// The header line: `None` on a malformed line, `Some((None, s))` when no
/// coordinate pair leads the input, and otherwise the dimensions and the
/// rest. A rule clause must parse but its value is carried no further, as
/// only `#r` lines choose the rule.
pub open spec fn spec_header_line(s: Seq<u8>) -> Option<(Option<(int, int)>, Seq<u8>)> {
    match spec_read_coordinates(s) {
        None => Some((None, s)),
        Some((x, y, rest)) => if rest.len() > 0 && rest[0] == 0x0A {
            Some((Some((x, y)), rest.skip(1)))
        } else if rest.len() > 0 && rest[0] == 0x2C {
            let a = rest.skip(1);
            let b = a.skip(ws_count(a));
            if b.len() < 4 || b.subrange(0, 4) != seq![0x72u8, 0x75u8, 0x6Cu8, 0x65u8] {
                None
            } else {
                let c = b.skip(4);
                let d = c.skip(ws_count(c));
                if d.len() == 0 || d[0] != 0x3D {
                    None
                } else {
                    let e = d.skip(1);
                    let f = e.skip(ws_count(e));
                    match spec_named_rule_with_ext(f) {
                        None => None,
                        Some((_, rest2)) => Some((Some((x, y)), rest2)),
                    }
                }
            }
        } else {
            None
        },
    }
}

/// One recognized comment line, as owned data.
pub enum RleCommentLine {
    Comment,
    Name(Vec<u8>),
    Author(Vec<u8>),
    Offset(WorldOffset, WorldOffset),
    RuleLine(RuleSet),
}

/// The exec comment line carries the data its specification names.
pub open spec fn line_matches(l: Option<RleCommentLine>, sl: Option<RleLineSpec>) -> bool {
    match sl {
        None => l is None,
        Some(RleLineSpec::Comment) => l == Some(RleCommentLine::Comment),
        Some(RleLineSpec::Name(n)) => (l matches Some(RleCommentLine::Name(v)) && v@ == n),
        Some(RleLineSpec::Author(n)) => (l matches Some(RleCommentLine::Author(v)) && v@ == n),
        Some(RleLineSpec::Offset(x, y)) => (l matches Some(RleCommentLine::Offset(a, b)) && a as int
            == x && b as int == y),
        Some(RleLineSpec::Rule(bm, sm, e)) => (l matches Some(RleCommentLine::RuleLine(rs))
            && rs.spec_births() == bm & 0x1FF && rs.spec_survivals() == sm & 0x1FF
            && rs.spec_extension() == e),
    }
}

/// Attempt to parse one comment line; input without a leading `#` is left
/// as-is and yields no line.
pub fn read_line_comment(bytes: &[u8]) -> (r: Result<
    (Option<RleCommentLine>, &[u8]),
    RleCommentLineError,
>)
    ensures
        match r {
            Ok((l, rest)) => (spec_comment_line(bytes@) matches Some((sl, srest)) && line_matches(
                l,
                sl,
            ) && rest@ == srest) && (l is Some ==> rest@.len() < bytes@.len()),
            Err(_) => spec_comment_line(bytes@) is None,
        },
{
    let rest = match parse_util::expect(0x23, bytes) {
        Ok(rest) => rest,
        Err(_) => {
            return Ok((None, bytes));
        },
    };
    proof {
        assert(bytes@.subrange(1, bytes@.len() as int) =~= bytes@.skip(1));
    }
    let ghost t = bytes@.skip(1);
    let (b, rest) = parse_util::take_1(rest);
    let b = match b {
        Some(b) => b,
        None => {
            return Err(RleCommentLineError::NoType);
        },
    };
    proof {
        assert(t.subrange(1, t.len() as int) =~= t.skip(1));
    }
    let ghost u = t.skip(1);
    if b == 0x43 || b == 0x63 {
        let (_, rest) = parse_util::take_with(0x0A, rest);
        proof {
            lemma_until_count(u, 0x0A);
            let i = until_count(u, 0x0A);
            if !(i == 0 || i == u.len()) {
                assert(u.subrange(i + 1, u.len() as int) =~= u.skip(i + 1));
            }
        }
        Ok((Some(RleCommentLine::Comment), rest))
    } else if b == 0x4E {
        let rest = parse_util::take_ws(rest);
        proof {
            crate::parse_util::lemma_ws_count(u);
            assert(u.subrange(ws_count(u), u.len() as int) =~= u.skip(ws_count(u)));
        }
        let ghost w = u.skip(ws_count(u));
        proof {
            lemma_until_count(w, 0x0A);
        }
        let (name, rest) = parse_util::take_with(0x0A, rest);
        let name = match name {
            Some(n) => n,
            None => {
                return Err(RleCommentLineError::EmptyName);
            },
        };
        proof {
            let i = until_count(w, 0x0A);
            assert(w.subrange(i + 1, w.len() as int) =~= w.skip(i + 1));
        }
        Ok((Some(RleCommentLine::Name(slice_copy(name))), rest))
    } else if b == 0x4F {
        let rest = parse_util::take_ws(rest);
        proof {
            crate::parse_util::lemma_ws_count(u);
            assert(u.subrange(ws_count(u), u.len() as int) =~= u.skip(ws_count(u)));
        }
        let ghost w = u.skip(ws_count(u));
        proof {
            lemma_until_count(w, 0x0A);
        }
        let (author, rest) = parse_util::take_with(0x0A, rest);
        let author = match author {
            Some(n) => n,
            None => {
                return Err(RleCommentLineError::EmptyAuthor);
            },
        };
        proof {
            let i = until_count(w, 0x0A);
            assert(w.subrange(i + 1, w.len() as int) =~= w.skip(i + 1));
        }
        Ok((Some(RleCommentLine::Author(slice_copy(author))), rest))
    } else if b == 0x52 || b == 0x50 {
        let rest = parse_util::take_ws(rest);
        proof {
            crate::parse_util::lemma_ws_count(u);
            assert(u.subrange(ws_count(u), u.len() as int) =~= u.skip(ws_count(u)));
        }
        let ghost w = u.skip(ws_count(u));
        let ((x, y), rest) = match read_coordinates(rest) {
            Ok(p) => p,
            Err(e) => {
                return Err(RleCommentLineError::InvalidCoord(e));
            },
        };
        proof {
            lemma_coords_consume(w);
        }
        Ok((Some(RleCommentLine::Offset(x, y)), rest))
    } else if b == 0x72 {
        let rest = parse_util::take_ws(rest);
        proof {
            crate::parse_util::lemma_ws_count(u);
            assert(u.subrange(ws_count(u), u.len() as int) =~= u.skip(ws_count(u)));
        }
        let ghost w = u.skip(ws_count(u));
        let (rule, rest) = match crate::rule_set::parse_nameless_rule(rest) {
            Ok(p) => p,
            Err(e) => {
                return Err(RleCommentLineError::InvalidRule(e));
            },
        };
        let rest = parse_util::take_ws(rest);
        proof {
            let r0 = (spec_rule_with_ext(w)->0).1;
            assert(r0.subrange(ws_count(r0), r0.len() as int) =~= r0.skip(ws_count(r0)));
            crate::rule_set::lemma_nameless_body_consume(w);
            let mid = (spec_nameless_body(w)->0).2;
            crate::rule_set::lemma_parse_ext_consume(mid);
            crate::parse_util::lemma_ws_count(r0);
            crate::parse_util::lemma_ws_count(u);
        }
        Ok((Some(RleCommentLine::RuleLine(rule)), rest))
    } else {
        Err(RleCommentLineError::InvalidType { got: b as char })
    }
}

/// Attempt to parse a header line `x = <w>, y = <h>[, rule = <rule>]`;
/// input without a leading coordinate pair is left as-is.
pub fn read_line_header(bytes: &[u8]) -> (r: Result<
    (Option<(WorldOffset, WorldOffset)>, &[u8]),
    RleHeaderLineError,
>)
    ensures
        match r {
            Ok((h, rest)) => (spec_header_line(bytes@) matches Some((sh, srest)) && rest@ == srest
                && match sh {
                None => h is None && rest@ == bytes@,
                Some((x, y)) => (h matches Some((a, b)) && a as int == x && b as int == y),
            }),
            Err(_) => spec_header_line(bytes@) is None,
        },
{
    let ((x, y), rest) = match read_coordinates(bytes) {
        Ok(p) => p,
        Err(_) => {
            return Ok((None, bytes));
        },
    };
    let (b, rest) = parse_util::take_1(rest);
    let b = match b {
        Some(b) => b,
        None => {
            return Err(
                RleHeaderLineError::ParseError(ParseError::UnexpectedEof { exp: ',' }),
            );
        },
    };
    let ghost coords_rest = (spec_read_coordinates(bytes@)->0).2;
    proof {
        assert(coords_rest.subrange(1, coords_rest.len() as int) =~= coords_rest.skip(1));
    }
    if b == 0x0A {
        return Ok((Some((x, y)), rest));
    }
    if b != 0x2C {
        return Err(RleHeaderLineError::InvalidToken { got: b as char });
    }
    let ghost a0 = coords_rest.skip(1);
    let rest = parse_util::take_ws(rest);
    proof {
        crate::parse_util::lemma_ws_count(a0);
        assert(a0.subrange(ws_count(a0), a0.len() as int) =~= a0.skip(ws_count(a0)));
    }
    let ghost b0 = a0.skip(ws_count(a0));
    let rule_word: [u8; 4] = [0x72, 0x75, 0x6C, 0x65];
    let rest = match parse_util::expect_slice(&rule_word, rest) {
        Ok(rest) => rest,
        Err(e) => {
            return Err(RleHeaderLineError::ParseError(e));
        },
    };
    proof {
        assert(rule_word@ =~= seq![0x72u8, 0x75u8, 0x6Cu8, 0x65u8]);
        assert(b0.subrange(4, b0.len() as int) =~= b0.skip(4));
    }
    let ghost c0 = b0.skip(4);
    let rest = parse_util::take_ws(rest);
    proof {
        crate::parse_util::lemma_ws_count(c0);
        assert(c0.subrange(ws_count(c0), c0.len() as int) =~= c0.skip(ws_count(c0)));
    }
    let ghost d0 = c0.skip(ws_count(c0));
    let rest = match parse_util::expect(0x3D, rest) {
        Ok(rest) => rest,
        Err(e) => {
            return Err(RleHeaderLineError::ParseError(e));
        },
    };
    proof {
        assert(d0.subrange(1, d0.len() as int) =~= d0.skip(1));
    }
    let ghost e0 = d0.skip(1);
    let rest = parse_util::take_ws(rest);
    proof {
        crate::parse_util::lemma_ws_count(e0);
        assert(e0.subrange(ws_count(e0), e0.len() as int) =~= e0.skip(ws_count(e0)));
    }
    let (_, rest) = match crate::rule_set::parse_rule(rest) {
        Ok(p) => p,
        Err(e) => {
            return Err(RleHeaderLineError::InvalidRule(e));
        },
    };
    Ok((Some((x, y)), rest))
}

/// The whole file: the metadata accumulated over the comment lines, the
/// offset — from a header line when present, else from a `#R`/`#P` line —
/// and the payload's live cells with the offset added.
pub open spec fn spec_rle_meta(
    s: Seq<u8>,
    name: Option<Seq<u8>>,
    author: Option<Seq<u8>>,
    offset: Option<(int, int)>,
    rule: Option<(u16, u16, Option<RuleExtension>)>,
) -> Option<
    (
        Option<Seq<u8>>,
        Option<Seq<u8>>,
        Option<(int, int)>,
        Option<(u16, u16, Option<RuleExtension>)>,
        Seq<u8>,
    ),
>
    decreases s.len(),
{
    match spec_comment_line(s) {
        None => None,
        Some((opt, rest)) => match opt {
            None => Some((name, author, offset, rule, s)),
            Some(line) => if rest.len() < s.len() {
                match line {
                    RleLineSpec::Comment => spec_rle_meta(rest, name, author, offset, rule),
                    RleLineSpec::Name(n) => if name is Some {
                        None
                    } else {
                        spec_rle_meta(rest, Some(n), author, offset, rule)
                    },
                    RleLineSpec::Author(n) => if author is Some {
                        None
                    } else {
                        spec_rle_meta(rest, name, Some(n), offset, rule)
                    },
                    RleLineSpec::Offset(x, y) => if offset is Some {
                        None
                    } else {
                        spec_rle_meta(rest, name, author, Some((x, y)), rule)
                    },
                    RleLineSpec::Rule(bm, sm, e) => spec_rle_meta(
                        rest,
                        name,
                        author,
                        offset,
                        Some((bm, sm, e)),
                    ),
                }
            } else {
                Some((name, author, offset, rule, rest))
            },
        },
    }
}

/// The exec rule carries the masks and extension of its specification, or
/// Conway's Life when none was named.
pub open spec fn rule_matches(set: RuleSet, ru: Option<(u16, u16, Option<RuleExtension>)>) -> bool {
    match ru {
        None => set.spec_births() == 0b1000 && set.spec_survivals() == 0b1100
            && set.spec_extension() is None,
        Some((bm, sm, e)) => set.spec_births() == bm & 0x1FF && set.spec_survivals() == sm & 0x1FF
            && set.spec_extension() == e,
    }
}

/// Parse a whole RLE file: any number of comment lines, then an optional
/// header line, then the payload. The returned metadata and coordinates
/// are exactly what the format describes; the payload coordinates carry
/// the file's offset, and the offset's `y` decreases down the page.
/// Failure happens exactly on a malformed line or payload or on duplicate
/// name, author or offset metadata.
pub fn read_rle(bytes: &[u8]) -> (r: Result<
    (RleFile, Vec<(WorldOffset, WorldOffset)>),
    RleError,
>)
    ensures
        match r {
            Ok((file, coords)) => ({
                &&& spec_rle_meta(bytes@, None, None, None, None) matches Some(
                    (nm, au, off, ru, rest1),
                )
                &&& (file.name is Some <==> nm is Some)
                &&& (nm is Some ==> (file.name->0)@ == nm->0)
                &&& (file.author is Some <==> au is Some)
                &&& (au is Some ==> (file.author->0)@ == au->0)
                &&& rule_matches(file.set, ru)
                &&& spec_header_line(rest1) matches Some((sh, rest2))
                &&& !(sh is Some && off is Some)
                &&& ({
                    let off2 = if sh is Some {
                        Some(((sh->0).0, (sh->0).1))
                    } else {
                        off
                    };
                    &&& (file.offset is Some <==> off2 is Some)
                    &&& (off2 is Some ==> (file.offset->0).0 as int == (off2->0).0 && (
                    file.offset->0).1 as int == (off2->0).1)
                    &&& ({
                        let dx = if off2 is Some {
                            (off2->0).0
                        } else {
                            0
                        };
                        let dy = if off2 is Some {
                            (off2->0).1
                        } else {
                            0
                        };
                        &&& spec_encoding(rest2, 0, 0, 1) matches Some(cs)
                        &&& coords@.len() == cs.len()
                        &&& (forall|k: int|
                            0 <= k < cs.len() ==> (#[trigger] coords@[k]).0 == dx + cs[k].0
                                && coords@[k].1 == dy + cs[k].1)
                    })
                })
            }),
            Err(_) => match spec_rle_meta(bytes@, None, None, None, None) {
                None => true,
                Some((nm, au, off, ru, rest1)) => match spec_header_line(rest1) {
                    None => true,
                    Some((sh, rest2)) => (sh is Some && off is Some) || spec_encoding(
                        rest2,
                        0,
                        0,
                        1,
                    ) is None,
                },
            },
        },
{
    let mut rest = bytes;
    let mut name: Option<Vec<u8>> = None;
    let mut author: Option<Vec<u8>> = None;
    let mut offset: Option<(WorldOffset, WorldOffset)> = None;
    let mut set: RuleSet = RuleSet::default();
    let ghost gname: Option<Seq<u8>> = None;
    let ghost gauthor: Option<Seq<u8>> = None;
    let ghost goffset: Option<(int, int)> = None;
    let ghost grule: Option<(u16, u16, Option<RuleExtension>)> = None;
    let mut gname = Ghost(gname);
    let mut gauthor = Ghost(gauthor);
    let mut goffset = Ghost(goffset);
    let mut grule = Ghost(grule);
    loop
        invariant
            spec_rle_meta(bytes@, None, None, None, None) == spec_rle_meta(
                rest@,
                gname@,
                gauthor@,
                goffset@,
                grule@,
            ),
            name is Some <==> gname@ is Some,
            gname@ is Some ==> (name->0)@ == gname@->0,
            author is Some <==> gauthor@ is Some,
            gauthor@ is Some ==> (author->0)@ == gauthor@->0,
            offset is Some <==> goffset@ is Some,
            goffset@ is Some ==> (offset->0).0 as int == (goffset@->0).0 && (offset->0).1 as int
                == (goffset@->0).1,
            rule_matches(set, grule@),
            goffset@ is Some ==> -(CONVERT_BOUND as int) < (goffset@->0).0 < CONVERT_BOUND as int
                && -(CONVERT_BOUND as int) < (goffset@->0).1 < CONVERT_BOUND as int,
        ensures
            spec_rle_meta(bytes@, None, None, None, None) matches Some((nm, au, off, ru, rest1))
                && nm == gname@ && au == gauthor@ && off == goffset@ && ru == grule@ && rest1
                == rest@,
        decreases rest@.len(),
    {
        let (line, next) = match read_line_comment(rest) {
            Ok(p) => p,
            Err(e) => {
                return Err(RleError::CommentLine(e));
            },
        };
        match line {
            None => {
                break ;
            },
            Some(RleCommentLine::Comment) => {
                rest = next;
            },
            Some(RleCommentLine::Name(n)) => {
                if name.is_some() {
                    return Err(RleError::DuplicateName);
                }
                proof {
                    gname@ = Some(n@);
                }
                name = Some(n);
                rest = next;
            },
            Some(RleCommentLine::Author(n)) => {
                if author.is_some() {
                    return Err(RleError::DuplicateAuthor);
                }
                proof {
                    gauthor@ = Some(n@);
                }
                author = Some(n);
                rest = next;
            },
            Some(RleCommentLine::Offset(x, y)) => {
                if offset.is_some() {
                    return Err(RleError::DuplicateOffset);
                }
                proof {
                    goffset@ = Some((x as int, y as int));
                    lemma_coords_bounds(rest@);
                }
                offset = Some((x, y));
                rest = next;
            },
            Some(RleCommentLine::RuleLine(rs)) => {
                proof {
                    grule@ = Some(
                        (
                            (spec_comment_line(rest@)->0).0->0->Rule_0,
                            (spec_comment_line(rest@)->0).0->0->Rule_1,
                            (spec_comment_line(rest@)->0).0->0->Rule_2,
                        ),
                    );
                }
                set = rs;
                rest = next;
            },
        }
    }
    let (header, rest) = match read_line_header(rest) {
        Ok(p) => p,
        Err(e) => {
            return Err(RleError::HeaderLine(e));
        },
    };
    let ghost rest1 = rest@;
    let offset = match header {
        Some((x, y)) => {
            if offset.is_some() {
                return Err(RleError::DuplicateOffset);
            }
            proof {
                lemma_header_bounds((spec_rle_meta(bytes@, None, None, None, None)->0).4);
            }
            Some((x, y))
        },
        None => offset,
    };
    let (dx, dy) = match offset {
        Some(p) => p,
        None => (0, 0),
    };
    let coords = match read_encoding(rest, dx, dy) {
        Ok(c) => c,
        Err(e) => {
            return Err(RleError::Encoding(e));
        },
    };
    Ok((RleFile { name, author, offset, set }, coords))
}

/// The coordinates a comment offset line carries are within the numeral
/// bound.
proof fn lemma_coords_bounds(s: Seq<u8>)
    ensures
        (spec_comment_line(s) matches Some((Some(RleLineSpec::Offset(x, y)), _)) ==> -(
        CONVERT_BOUND as int) < x < CONVERT_BOUND as int && -(CONVERT_BOUND as int) < y
            < CONVERT_BOUND as int),
{
}

/// The dimensions a header line carries are within the numeral bound.
proof fn lemma_header_bounds(s: Seq<u8>)
    ensures
        (spec_header_line(s) matches Some((Some((x, y)), _)) ==> -(CONVERT_BOUND as int) < x
            < CONVERT_BOUND as int && -(CONVERT_BOUND as int) < y < CONVERT_BOUND as int),
{
}

/// A successful coordinate parse consumes at least one byte.
proof fn lemma_coords_consume(s: Seq<u8>)
    ensures
        spec_read_coordinates(s) matches Some((_, _, rest)) ==> rest.len() < s.len(),
{
    if spec_read_coordinates(s) is Some {
        let a = s.skip(1);
        crate::parse_util::lemma_ws_count(a);
        let b = a.skip(ws_count(a));
        let c = b.skip(1);
        crate::parse_util::lemma_ws_count(c);
        let d = c.skip(ws_count(c));
        lemma_until_count(d, 0x2C);
        let i = until_count(d, 0x2C);
        let e = d.skip(i + 1);
        crate::parse_util::lemma_ws_count(e);
        let f = e.skip(ws_count(e));
        let g = f.skip(1);
        crate::parse_util::lemma_ws_count(g);
        let h = g.skip(ws_count(g));
        let k = h.skip(1);
        crate::parse_util::lemma_ws_count(k);
        let m = k.skip(ws_count(k));
        lemma_until_cn_count(m);
    }
}

/// Copy a borrowed slice into an owned vector.
fn slice_copy(bytes: &[u8]) -> (r: Vec<u8>)
    ensures
        r@ == bytes@,
{
    let mut v: Vec<u8> = Vec::new();
    let mut i: usize = 0;
    while i < bytes.len()
        invariant
            0 <= i <= bytes@.len(),
            v@ == bytes@.subrange(0, i as int),
        decreases bytes@.len() - i,
    {
        v.push(bytes[i]);
        proof {
            assert(v@ =~= bytes@.subrange(0, i + 1));
        }
        i += 1;
    }
    proof {
        assert(bytes@.subrange(0, bytes@.len() as int) =~= bytes@);
    }
    v
}

} // verus!
