//! The rule compiler: birth/survival rule strings and the 65,536-entry
//! lookup table mapping any 4x4 cell configuration to its one-generation
//! successor in the central 2x2.

use vstd::prelude::*;

verus! {

use crate::parse_util;
use crate::parse_util::ParseError;
use crate::parse_util::all_digits;
use crate::parse_util::is_numeral;
use crate::parse_util::is_ws;
use crate::parse_util::numeral_val;
use crate::parse_util::until_count;
use crate::parse_util::until_ws_count;
use crate::parse_util::lemma_until_count;
use crate::parse_util::lemma_until_ws_count;
use crate::parse_util::CONVERT_BOUND;

/// The eight neighbors of the cell at bit 5, within a 4x4 bitmap.
pub const NBHD_MASK: u16 = 0b0000_0111_0101_0111;

/// The cell at bit 5: row 2, column 2 of the 4x4.
pub const CELL_MASK: u16 = 0b0000_0000_0010_0000;

/// The four central bits of a 4x4 bitmap: `CELL_MASK` shifted by 0, 1, 4
/// and 5.
pub const CENTER_MASK: u16 = 0b0000_0110_0110_0000;

/// The number of set bits in `x`, as a sum over all sixteen positions.
pub open spec fn pop16(x: u16) -> int {
    ((x >> 0u16) & 1) + ((x >> 1u16) & 1) + ((x >> 2u16) & 1) + ((x >> 3u16) & 1) + ((x >> 4u16)
        & 1) + ((x >> 5u16) & 1) + ((x >> 6u16) & 1) + ((x >> 7u16) & 1) + ((x >> 8u16) & 1) + ((
    x >> 9u16) & 1) + ((x >> 10u16) & 1) + ((x >> 11u16) & 1) + ((x >> 12u16) & 1) + ((x >> 13u16)
        & 1) + ((x >> 14u16) & 1) + ((x >> 15u16) & 1)
}

/// Clearing the lowest set bit removes exactly one from the population
/// count, and the count of the masked neighborhoods never exceeds eight.
proof fn lemma_pop16_step()
    by (bit_vector)
    ensures
        forall|x: u16| x != 0 ==> #[trigger] pop16((x - 1) as u16 & x) == pop16(x) - 1,
        forall|x: u16| 0 <= #[trigger] pop16(x) <= 16,
        pop16(0) == 0,
        forall|x: u16| #[trigger] pop16(x & (NBHD_MASK << 0u16)) <= 8,
        forall|x: u16| #[trigger] pop16(x & (NBHD_MASK << 1u16)) <= 8,
        forall|x: u16| #[trigger] pop16(x & (NBHD_MASK << 4u16)) <= 8,
        forall|x: u16| #[trigger] pop16(x & (NBHD_MASK << 5u16)) <= 8,
{
}

// Count the set bits by repeatedly clearing the lowest one.
pub fn count_bits(x: u16) -> (r: u8)
    ensures
        r == pop16(x),
{
    proof {
        lemma_pop16_step();
    }
    let ghost x0 = x;
    let mut x = x;
    let mut n: u8 = 0;
    while x != 0
        invariant
            n + pop16(x) == pop16(x0),
            pop16(x0) <= 16,
            0 <= pop16(x),
        decreases pop16(x),
    {
        proof {
            lemma_pop16_step();
        }
        x = (x - 1) & x;
        n = n + 1;
    }
    proof {
        lemma_pop16_step();
    }
    n
}

/// Whether the center cell at `CELL_MASK << shift` is alive in the next
/// generation: count its eight neighbors and consult the birth mask when it
/// is dead, the survival mask when alive.
pub open spec fn center_next(births: u16, survivals: u16, cell: u16, shift: u16) -> bool {
    let nbhd = NBHD_MASK << shift;
    let cmask = CELL_MASK << shift;
    let dead = cell & cmask == 0;
    let count = pop16(cell & nbhd);
    let bit = (1u16 << (count as u16));
    if dead {
        births & bit == bit
    } else {
        survivals & bit == bit
    }
}

/// The one-generation successor of a 4x4 configuration: each of the four
/// central cells evolves by the outer-totalistic rule; every other bit of
/// the result is zero.
pub open spec fn spec_rule_next(births: u16, survivals: u16, cell: u16) -> u16 {
    let r0: u16 = if center_next(births, survivals, cell, 0) {
        CELL_MASK << 0u16
    } else {
        0
    };
    let r1: u16 = if center_next(births, survivals, cell, 1) {
        CELL_MASK << 1u16
    } else {
        0
    };
    let r4: u16 = if center_next(births, survivals, cell, 4) {
        CELL_MASK << 4u16
    } else {
        0
    };
    let r5: u16 = if center_next(births, survivals, cell, 5) {
        CELL_MASK << 5u16
    } else {
        0
    };
    r0 | r1 | r4 | r5
}

/// The table entry for any configuration sets only the four central bits.
pub proof fn lemma_rule_table_totality(births: u16, survivals: u16, cell: u16)
    ensures
        spec_rule_next(births, survivals, cell) & !CENTER_MASK == 0,
{
    let r = spec_rule_next(births, survivals, cell);
    assert(r == spec_rule_next(births, survivals, cell) && r & !CENTER_MASK == 0) by (bit_vector)
        requires
            r == spec_rule_next(births, survivals, cell),
    ;
}

/// A birth/survival rule. The upper 16 bits of `rule` hold the birth set,
/// the lower 16 the survival set, one bit per neighbor count.
#[derive(PartialEq, Eq, Structural, Clone, Debug)]
pub struct RuleSet {
    rule: u32,
    ext: Option<RuleExtension>,
}

impl Default for RuleSet {
    /// Conway's Life: birth on 3 neighbors, survival on 2 or 3.
    fn default() -> (r: Self)
        ensures
            r.spec_births() == 0b1000,
            r.spec_survivals() == 0b1100,
            r.spec_extension() is None,
    {
        proof {
            assert(0b1000u16 & 0x1FF == 0b1000u16 && 0b1100u16 & 0x1FF == 0b1100u16)
                by (bit_vector);
        }
        RuleSet::new(0b1000, 0b1100)
    }
}

impl RuleSet {
    /// The birth set: bit `i` means a dead cell with `i` live neighbors is
    /// born.
    pub closed spec fn spec_births(&self) -> u16 {
        ((self.rule >> 16u32) & 0x1FF) as u16
    }

    /// The survival set: bit `i` means a live cell with `i` live neighbors
    /// survives.
    pub closed spec fn spec_survivals(&self) -> u16 {
        (self.rule & 0x1FF) as u16
    }

    /// The parsed topology suffix, if the rule string carried one.
    pub closed spec fn spec_extension(&self) -> Option<RuleExtension> {
        self.ext
    }

    /// Create a `RuleSet` from a birth mask and a survival mask; bits past
    /// the eighth are ignored.
    pub fn new(b: u16, s: u16) -> (r: Self)
        ensures
            r.spec_births() == b & 0x1FF,
            r.spec_survivals() == s & 0x1FF,
            r.spec_extension() is None,
    {
        proof {
            lemma_mask_idem();
        }
        let bm = b & 0x1FF;
        let sm = s & 0x1FF;
        let r = Self { rule: (bm as u32) << 16u32 | sm as u32, ext: None };
        proof {
            lemma_rule_pack(bm, sm, r.rule);
        }
        r
    }

    /// As `new`, with a topology extension attached.
    pub fn with_extension(b: u16, s: u16, ext: RuleExtension) -> (r: Self)
        ensures
            r.spec_births() == b & 0x1FF,
            r.spec_survivals() == s & 0x1FF,
            r.spec_extension() == Some(ext),
    {
        proof {
            lemma_mask_idem();
        }
        let bm = b & 0x1FF;
        let sm = s & 0x1FF;
        let r = Self { rule: (bm as u32) << 16u32 | sm as u32, ext: Some(ext) };
        proof {
            lemma_rule_pack(bm, sm, r.rule);
        }
        r
    }

    pub fn births(&self) -> (r: u16)
        ensures
            r == self.spec_births(),
    {
        ((self.rule >> 16u32) & 0x1FF) as u16
    }

    pub fn survivals(&self) -> (r: u16)
        ensures
            r == self.spec_survivals(),
    {
        (self.rule & 0x1FF) as u16
    }

    pub fn extension(&self) -> (r: Option<&RuleExtension>)
        ensures
            match r {
                Some(e) => self.spec_extension() == Some(*e),
                None => self.spec_extension() is None,
            },
    {
        self.ext.as_ref()
    }

    /// The one-generation successor of the 4x4 configuration `cell` under
    /// this rule.
    pub fn next(&self, cell: u16) -> (r: u16)
        ensures
            r == spec_rule_next(self.spec_births(), self.spec_survivals(), cell),
    {
        proof {
            lemma_pop16_step();
        }
        let births = self.births();
        let survivals = self.survivals();

        let c0 = count_bits(cell & (NBHD_MASK << 0u16));
        let m0 = CELL_MASK << 0u16;
        let b0 = 1u16 << (c0 as u16);
        let z0: u16 = if (if cell & m0 == 0 {
            births & b0 == b0
        } else {
            survivals & b0 == b0
        }) {
            m0
        } else {
            0
        };

        let c1 = count_bits(cell & (NBHD_MASK << 1u16));
        let m1 = CELL_MASK << 1u16;
        let b1 = 1u16 << (c1 as u16);
        let z1: u16 = if (if cell & m1 == 0 {
            births & b1 == b1
        } else {
            survivals & b1 == b1
        }) {
            m1
        } else {
            0
        };

        let c4 = count_bits(cell & (NBHD_MASK << 4u16));
        let m4 = CELL_MASK << 4u16;
        let b4 = 1u16 << (c4 as u16);
        let z4: u16 = if (if cell & m4 == 0 {
            births & b4 == b4
        } else {
            survivals & b4 == b4
        }) {
            m4
        } else {
            0
        };

        let c5 = count_bits(cell & (NBHD_MASK << 5u16));
        let m5 = CELL_MASK << 5u16;
        let b5 = 1u16 << (c5 as u16);
        let z5: u16 = if (if cell & m5 == 0 {
            births & b5 == b5
        } else {
            survivals & b5 == b5
        }) {
            m5
        } else {
            0
        };

        z0 | z1 | z4 | z5
    }

    /// Compute the full rule table: entry `c` is the one-generation
    /// successor of the configuration `c`, and only its central 2x2 bits
    /// are ever set.
    pub fn compute_rules(&self) -> (r: Vec<u16>)
        ensures
            r@.len() == 0x10000,
            forall|i: int|
                0 <= i < 0x10000 ==> r@[i] == spec_rule_next(
                    self.spec_births(),
                    self.spec_survivals(),
                    i as u16,
                ),
            forall|i: int| 0 <= i < 0x10000 ==> #[trigger] r@[i] & !CENTER_MASK == 0,
    {
        let mut rules: Vec<u16> = Vec::new();
        let mut cell: usize = 0;
        while cell < 0x10000
            invariant
                0 <= cell <= 0x10000,
                rules@.len() == cell,
                forall|i: int|
                    0 <= i < cell ==> rules@[i] == spec_rule_next(
                        self.spec_births(),
                        self.spec_survivals(),
                        i as u16,
                    ),
            decreases 0x10000 - cell,
        {
            rules.push(self.next(cell as u16));
            cell += 1;
        }
        proof {
            assert forall|i: int| 0 <= i < 0x10000 implies #[trigger] rules@[i] & !CENTER_MASK
                == 0 by {
                lemma_rule_table_totality(self.spec_births(), self.spec_survivals(), i as u16);
            }
        }
        rules
    }
}

/// Masking twice with the same mask is the same as masking once.
proof fn lemma_mask_idem()
    by (bit_vector)
    ensures
        forall|x: u16| (#[trigger] (x & 0x1FF)) & 0x1FF == x & 0x1FF,
{
}

/// Packing a masked birth and survival pair into one word and reading it
/// back returns the pair.
proof fn lemma_rule_pack(b: u16, s: u16, rule: u32)
    by (bit_vector)
    requires
        b & 0x1FF == b,
        s & 0x1FF == s,
        rule == (b as u32) << 16u32 | s as u32,
    ensures
        ((rule >> 16u32) & 0x1FF) as u16 == b,
        (rule & 0x1FF) as u16 == s,
{
}

/// Whether the cell at row `r`, column `c` of a 4x4 configuration is
/// alive; row 0 is the top row and the most significant bit of a row is
/// its leftmost cell.
pub open spec fn cfg_bit(t: u16, r: int, c: int) -> bool {
    crate::cell::u16_bit(t, (15 - (4 * r + c)) as u16)
}

/// One when alive, zero when dead.
pub open spec fn b2i(b: bool) -> int {
    if b {
        1
    } else {
        0
    }
}

/// How many of the eight neighbors of the cell at row `r`, column `c` are
/// alive, for the central positions whose whole neighborhood lies inside
/// the 4x4.
pub open spec fn neighbor_count(t: u16, r: int, c: int) -> int {
    b2i(cfg_bit(t, r - 1, c - 1)) + b2i(cfg_bit(t, r - 1, c)) + b2i(cfg_bit(t, r - 1, c + 1))
        + b2i(cfg_bit(t, r, c - 1)) + b2i(cfg_bit(t, r, c + 1)) + b2i(cfg_bit(t, r + 1, c - 1))
        + b2i(cfg_bit(t, r + 1, c)) + b2i(cfg_bit(t, r + 1, c + 1))
}

/// The table computes the outer-totalistic rule cell by cell: each central
/// bit of a table entry is the birth or survival decision for that cell,
/// taken over its eight neighbors in the configuration.
pub proof fn lemma_rule_next_cellwise(births: u16, survivals: u16, t: u16, r: int, c: int)
    requires
        1 <= r <= 2,
        1 <= c <= 2,
    ensures
        ({
            let cnt = neighbor_count(t, r, c);
            cfg_bit(spec_rule_next(births, survivals, t), r, c) == (if cfg_bit(t, r, c) {
                survivals & (1u16 << (cnt as u16)) == (1u16 << (cnt as u16))
            } else {
                births & (1u16 << (cnt as u16)) == (1u16 << (cnt as u16))
            })
        }),
{
    if r == 1 && c == 1 {
        assert(({
            let cnt = neighbor_count(t, 1, 1);
            cfg_bit(spec_rule_next(births, survivals, t), 1, 1) == (if cfg_bit(t, 1, 1) {
                survivals & (1u16 << (cnt as u16)) == (1u16 << (cnt as u16))
            } else {
                births & (1u16 << (cnt as u16)) == (1u16 << (cnt as u16))
            })
        })) by (bit_vector);
    } else if r == 1 && c == 2 {
        assert(({
            let cnt = neighbor_count(t, 1, 2);
            cfg_bit(spec_rule_next(births, survivals, t), 1, 2) == (if cfg_bit(t, 1, 2) {
                survivals & (1u16 << (cnt as u16)) == (1u16 << (cnt as u16))
            } else {
                births & (1u16 << (cnt as u16)) == (1u16 << (cnt as u16))
            })
        })) by (bit_vector);
    } else if r == 2 && c == 1 {
        assert(({
            let cnt = neighbor_count(t, 2, 1);
            cfg_bit(spec_rule_next(births, survivals, t), 2, 1) == (if cfg_bit(t, 2, 1) {
                survivals & (1u16 << (cnt as u16)) == (1u16 << (cnt as u16))
            } else {
                births & (1u16 << (cnt as u16)) == (1u16 << (cnt as u16))
            })
        })) by (bit_vector);
    } else {
        assert(({
            let cnt = neighbor_count(t, 2, 2);
            cfg_bit(spec_rule_next(births, survivals, t), 2, 2) == (if cfg_bit(t, 2, 2) {
                survivals & (1u16 << (cnt as u16)) == (1u16 << (cnt as u16))
            } else {
                births & (1u16 << (cnt as u16)) == (1u16 << (cnt as u16))
            })
        })) by (bit_vector);
    }
}

/// How the plane wraps, from the topology suffix of a rule string. Only
/// the planar unbounded case affects this engine; the rest are parsed and
/// carried through.
#[derive(PartialEq, Eq, Structural, Clone, Copy, Debug)]
pub enum RuleTopology {
    Planar,
    Torus,
    KleinBottle,
    Spherical,
    Cylindrical,
}

/// A bounded or unbounded extent in one axis of a topology suffix.
#[derive(PartialEq, Eq, Structural, Clone, Copy, Debug)]
pub enum RuleSize {
    Bounded(u32),
    Unbounded,
}

/// A parsed topology suffix `:<T|P|K|S|C><w>,<h>`.
#[derive(PartialEq, Eq, Structural, Clone, Copy, Debug)]
pub struct RuleExtension {
    pub topology: RuleTopology,
    pub width: RuleSize,
    pub height: RuleSize,
}

/// Why a rule string was rejected.
#[derive(Debug)]
pub enum RuleError {
    ParseError(ParseError),
    NoBirths,
    NoBirthsCount,
    NoSurvivals,
    NoSurvivalsCount,
    BirthCountContainsNonDigits,
    SurvivalCountContainsNonDigits,
    ExtensionError(RuleExtensionError),
}

/// Why a topology suffix was rejected.
#[derive(Debug)]
pub enum RuleExtensionError {
    ParseError(ParseError),
    UnexpectedEof,
    UnrecognizedTopology { got: char },
    NoWidth,
    NoHeight,
    ParseWidth { got: Vec<u8> },
    ParseHeight { got: Vec<u8> },
}

/// The set-of-digits bitmask of a digit string: bit `i` is set when the
/// digit `i` occurs.
pub open spec fn digits_mask(s: Seq<u8>) -> u16
    decreases s.len(),
{
    if s.len() == 0 {
        0
    } else {
        digits_mask(s.take(s.len() - 1)) | (1u16 << ((s[s.len() - 1] - 0x30) as u16))
    }
}

/// Convert a human-readable birth or survival digit run to its packed bit
/// representation.
pub fn bytes_to_num(bytes: &[u8]) -> (r: Result<u16, ()>)
    ensures
        match r {
            Ok(m) => all_digits(bytes@) && m == digits_mask(bytes@),
            Err(_) => !all_digits(bytes@),
        },
{
    let mut n: u16 = 0;
    let mut i: usize = 0;
    while i < bytes.len()
        invariant
            0 <= i <= bytes@.len(),
            forall|j: int| 0 <= j < i ==> parse_util::is_digit(#[trigger] bytes@[j]),
            n == digits_mask(bytes@.subrange(0, i as int)),
        decreases bytes@.len() - i,
    {
        let b = bytes[i];
        if !(0x30 <= b && b <= 0x39) {
            return Err(());
        }
        n = n | (1u16 << ((b - 0x30) as u16));
        proof {
            assert(bytes@.subrange(0, i + 1).take(i as int) =~= bytes@.subrange(0, i as int));
            assert(bytes@.subrange(0, i + 1)[i as int] == bytes@[i as int]);
        }
        i += 1;
    }
    proof {
        assert(bytes@.subrange(0, bytes@.len() as int) =~= bytes@);
    }
    Ok(n)
}

/// A byte that ends a survival digit run: whitespace, or the colon that
/// starts a topology suffix.
pub open spec fn is_stop(b: u8) -> bool {
    is_ws(b) || b == 0x3A
}

/// The index of the first stop byte, or the length when none occurs.
pub open spec fn until_stop_count(s: Seq<u8>) -> int
    decreases s.len(),
{
    if s.len() == 0 || is_stop(s[0]) {
        0
    } else {
        1 + until_stop_count(s.skip(1))
    }
}

proof fn lemma_until_stop_count(s: Seq<u8>)
    ensures
        0 <= until_stop_count(s) <= s.len(),
        forall|j: int| 0 <= j < until_stop_count(s) ==> !is_stop(#[trigger] s[j]),
        until_stop_count(s) < s.len() ==> is_stop(s[until_stop_count(s)]),
    decreases s.len(),
{
    if s.len() > 0 && !is_stop(s[0]) {
        lemma_until_stop_count(s.skip(1));
        assert forall|j: int| 0 <= j < until_stop_count(s) implies !is_stop(#[trigger] s[j]) by {
            if j > 0 {
                assert(s.skip(1)[j - 1] == s[j]);
            }
        }
        if until_stop_count(s) < s.len() {
            assert(s.skip(1)[until_stop_count(s) - 1] == s[until_stop_count(s)]);
        }
    }
}

proof fn lemma_until_stop_count_step(s: Seq<u8>, k: int)
    requires
        0 <= k <= s.len(),
        forall|j: int| 0 <= j < k ==> !is_stop(#[trigger] s[j]),
    ensures
        until_stop_count(s) >= k,
    decreases k,
{
    lemma_until_stop_count(s);
    if k > 0 {
        assert forall|j: int| 0 <= j < k - 1 implies !is_stop(#[trigger] s.skip(1)[j]) by {
            assert(s.skip(1)[j] == s[j + 1]);
        }
        lemma_until_stop_count_step(s.skip(1), k - 1);
    }
}

/// Advance until a stop byte, without consuming it, under the same
/// conventions as `take_until`.
fn take_until_stop(bytes: &[u8]) -> (r: (Option<&[u8]>, &[u8]))
    ensures
        ({
            let i = until_stop_count(bytes@);
            if i == 0 || i == bytes@.len() {
                r.0 is None && r.1@ == bytes@
            } else {
                (r.0 matches Some(pre) && pre@ == bytes@.subrange(0, i)) && r.1@
                    == bytes@.subrange(i, bytes@.len() as int)
            }
        }),
{
    proof {
        lemma_until_stop_count(bytes@);
    }
    let n = bytes.len();
    let mut i: usize = 0;
    while i < n && !(bytes[i] == 0x20 || bytes[i] == 0x09 || bytes[i] == 0x0A || bytes[i] == 0x0C
        || bytes[i] == 0x0D || bytes[i] == 0x3A)
        invariant
            n == bytes@.len(),
            0 <= i <= n,
            forall|j: int| 0 <= j < i ==> !is_stop(#[trigger] bytes@[j]),
        decreases n - i,
    {
        i += 1;
    }
    proof {
        lemma_until_stop_count(bytes@);
        lemma_until_stop_count_step(bytes@, i as int);
        assert(i as int == until_stop_count(bytes@));
    }
    if i == 0 || i == n {
        (None, bytes)
    } else {
        (Some(&bytes[0..i]), &bytes[i..n])
    }
}

/// The `<digits>/[sS]<digits>` body shared by named and nameless rule
/// strings: the packed birth mask, the packed survival mask, and the rest
/// of the input from the stop byte on.
pub open spec fn spec_rule_body(s: Seq<u8>) -> Option<(u16, u16, Seq<u8>)> {
    let i = until_count(s, 0x2F);
    if i == 0 || i == s.len() {
        None
    } else if !all_digits(s.subrange(0, i)) {
        None
    } else {
        let u = s.skip(i + 1);
        if u.len() == 0 || !(u[0] == 0x73 || u[0] == 0x53) {
            None
        } else {
            let v = u.skip(1);
            let j = until_stop_count(v);
            if j == 0 || j == v.len() {
                None
            } else if !all_digits(v.subrange(0, j)) {
                None
            } else {
                Some((digits_mask(s.subrange(0, i)), digits_mask(v.subrange(0, j)), v.skip(j)))
            }
        }
    }
}

/// The nameless `<digits>/<digits>` body used in `#r` comment lines of
/// RLE files: no survival marker follows the slash.
pub open spec fn spec_nameless_body(s: Seq<u8>) -> Option<(u16, u16, Seq<u8>)> {
    let i = until_count(s, 0x2F);
    if i == 0 || i == s.len() {
        None
    } else if !all_digits(s.subrange(0, i)) {
        None
    } else {
        let u = s.skip(i + 1);
        let j = until_stop_count(u);
        if j == 0 || j == u.len() {
            None
        } else if !all_digits(u.subrange(0, j)) {
            None
        } else {
            Some((digits_mask(s.subrange(0, i)), digits_mask(u.subrange(0, j)), u.skip(j)))
        }
    }
}

/// A full rule string `[bB]<digits>/[sS]<digits>`.
pub open spec fn spec_parse_rule(s: Seq<u8>) -> Option<(u16, u16, Seq<u8>)> {
    if s.len() == 0 || !(s[0] == 0x62 || s[0] == 0x42) {
        None
    } else {
        spec_rule_body(s.skip(1))
    }
}

/// The topology named by a suffix letter.
pub open spec fn spec_topology(b: u8) -> Option<RuleTopology> {
    if b == 0x50 {
        Some(RuleTopology::Planar)
    } else if b == 0x54 {
        Some(RuleTopology::Torus)
    } else if b == 0x4B {
        Some(RuleTopology::KleinBottle)
    } else if b == 0x53 {
        Some(RuleTopology::Spherical)
    } else if b == 0x43 {
        Some(RuleTopology::Cylindrical)
    } else {
        None
    }
}

/// A width or height field: an unsigned numeral that fits a `u32`, or `*`
/// for unbounded.
pub open spec fn spec_size(w: Seq<u8>) -> Option<RuleSize> {
    if is_numeral(w) && w[0] != 0x2D && 0 <= numeral_val(w) <= u32::MAX {
        Some(RuleSize::Bounded(numeral_val(w) as u32))
    } else if w =~= seq![0x2Au8] {
        Some(RuleSize::Unbounded)
    } else {
        None
    }
}

/// A topology suffix `:<letter><w>,<h>` followed by whitespace.
pub open spec fn spec_parse_ext(s: Seq<u8>) -> Option<(RuleExtension, Seq<u8>)> {
    if s.len() < 2 || s[0] != 0x3A {
        None
    } else if spec_topology(s[1]) is None {
        None
    } else {
        let w = s.skip(2);
        let i = until_count(w, 0x2C);
        if i == 0 || i == w.len() {
            None
        } else if spec_size(w.subrange(0, i)) is None {
            None
        } else {
            let h = w.skip(i + 1);
            let j = until_ws_count(h);
            if j == 0 || j == h.len() {
                None
            } else if spec_size(h.subrange(0, j)) is None {
                None
            } else {
                Some(
                    (
                        RuleExtension {
                            topology: spec_topology(s[1])->0,
                            width: spec_size(w.subrange(0, i))->0,
                            height: spec_size(h.subrange(0, j))->0,
                        },
                        h.skip(j),
                    ),
                )
            }
        }
    }
}

/// A parsed rule body leaves a suffix of its input.
pub proof fn lemma_rule_body_consume(s: Seq<u8>)
    ensures
        spec_rule_body(s) matches Some((_, _, mid)) ==> mid.len() <= s.len(),
{
    if spec_rule_body(s) is Some {
        lemma_until_count(s, 0x2F);
        let i = until_count(s, 0x2F);
        let u = s.skip(i + 1);
        let v = u.skip(1);
        lemma_until_stop_count(v);
    }
}

/// A parsed nameless rule body leaves a suffix of its input.
pub proof fn lemma_nameless_body_consume(s: Seq<u8>)
    ensures
        spec_nameless_body(s) matches Some((_, _, mid)) ==> mid.len() <= s.len(),
{
    if spec_nameless_body(s) is Some {
        lemma_until_count(s, 0x2F);
        let i = until_count(s, 0x2F);
        let u = s.skip(i + 1);
        lemma_until_stop_count(u);
    }
}

/// A parsed topology suffix leaves a suffix of its input.
pub proof fn lemma_parse_ext_consume(s: Seq<u8>)
    ensures
        spec_parse_ext(s) matches Some((_, r2)) ==> r2.len() <= s.len(),
{
    if spec_parse_ext(s) is Some {
        let w = s.skip(2);
        lemma_until_count(w, 0x2C);
        let i = until_count(w, 0x2C);
        let h = w.skip(i + 1);
        lemma_until_ws_count(h);
    }
}

/// Parse the rule body and any topology suffix, packaging the result as a
/// `RuleSet`. With `expect_s` the survival digits must carry an `s` or `S`
/// marker, as in a full rule string; without it they follow the slash
/// directly, as in a nameless rule.
fn parse_rule_body(bytes: &[u8], expect_s: bool) -> (r: Result<(RuleSet, &[u8]), RuleError>)
    ensures
        match r {
            Ok(p) => ({
                &&& (if expect_s {
                    spec_rule_body(bytes@)
                } else {
                    spec_nameless_body(bytes@)
                }) matches Some((b, s, mid))
                &&& p.0.spec_births() == b & 0x1FF
                &&& p.0.spec_survivals() == s & 0x1FF
                &&& if mid.len() > 0 && mid[0] == 0x3A {
                    spec_parse_ext(mid) matches Some((e, rest2)) && p.0.spec_extension() == Some(e)
                        && p.1@ == rest2
                } else {
                    p.0.spec_extension() is None && p.1@ == mid
                }
            }),
            Err(_) => match (if expect_s {
                spec_rule_body(bytes@)
            } else {
                spec_nameless_body(bytes@)
            }) {
                Some((b, s, mid)) => mid.len() > 0 && mid[0] == 0x3A && spec_parse_ext(mid)
                    is None,
                None => true,
            },
        },
{
    proof {
        lemma_until_count(bytes@, 0x2F);
    }
    let (bdigits, rest) = parse_util::take_until(0x2F, bytes);
    let bdigits = match bdigits {
        Some(d) => d,
        None => {
            return Err(RuleError::NoBirthsCount);
        },
    };
    let b = match bytes_to_num(bdigits) {
        Ok(b) => b,
        Err(_) => {
            return Err(RuleError::BirthCountContainsNonDigits);
        },
    };
    let rest = match parse_util::expect(0x2F, rest) {
        Ok(rest) => rest,
        Err(e) => {
            return Err(RuleError::ParseError(e));
        },
    };
    let ghost i = until_count(bytes@, 0x2F);
    proof {
        assert(bytes@.subrange(i, bytes@.len() as int).subrange(
            1,
            bytes@.len() - i,
        ) =~= bytes@.skip(i + 1));
    }
    let mut rest = rest;
    if expect_s {
        let (marker, rest2) = parse_util::take_1(rest);
        match marker {
            Some(m) if m == 0x73 || m == 0x53 => {},
            Some(_) => {
                return Err(RuleError::NoSurvivals);
            },
            None => {
                return Err(RuleError::NoSurvivals);
            },
        }
        proof {
            assert(bytes@.skip(i + 1).subrange(1, bytes@.len() - i - 1) =~= bytes@.skip(
                i + 1,
            ).skip(1));
        }
        rest = rest2;
    }
    let ghost v = if expect_s {
        bytes@.skip(i + 1).skip(1)
    } else {
        bytes@.skip(i + 1)
    };
    let (sdigits, rest) = take_until_stop(rest);
    let sdigits = match sdigits {
        Some(d) => d,
        None => {
            return Err(RuleError::NoSurvivalsCount);
        },
    };
    let s = match bytes_to_num(sdigits) {
        Ok(s) => s,
        Err(_) => {
            return Err(RuleError::SurvivalCountContainsNonDigits);
        },
    };
    let ghost j = until_stop_count(v);
    proof {
        assert(v.subrange(j, v.len() as int) =~= v.skip(j));
    }
    let has_ext = match parse_util::peek_1(rest) {
        Some(b) => b == 0x3A,
        None => false,
    };
    if has_ext {
        let (ext, rest) = match parse_rule_extension(rest) {
            Ok(p) => p,
            Err(e) => {
                return Err(RuleError::ExtensionError(e));
            },
        };
        Ok((RuleSet::with_extension(b, s, ext), rest))
    } else {
        Ok((RuleSet::new(b, s), rest))
    }
}

/// Parse a rule of the form `b3/s23`, case-insensitive markers included,
/// with an optional topology suffix; the unconsumed input is returned.
/// Succeeds exactly when the input starts with a well-formed rule string.
pub fn parse_rule(bytes: &[u8]) -> (r: Result<(RuleSet, &[u8]), RuleError>)
    ensures
        match r {
            Ok(p) => ({
                &&& spec_parse_rule(bytes@) matches Some((b, s, mid))
                &&& p.0.spec_births() == b & 0x1FF
                &&& p.0.spec_survivals() == s & 0x1FF
                &&& if mid.len() > 0 && mid[0] == 0x3A {
                    spec_parse_ext(mid) matches Some((e, rest2)) && p.0.spec_extension() == Some(e)
                        && p.1@ == rest2
                } else {
                    p.0.spec_extension() is None && p.1@ == mid
                }
            }),
            Err(_) => match spec_parse_rule(bytes@) {
                Some((b, s, mid)) => mid.len() > 0 && mid[0] == 0x3A && spec_parse_ext(mid)
                    is None,
                None => true,
            },
        },
{
    let (marker, rest) = parse_util::take_1(bytes);
    match marker {
        Some(m) if m == 0x62 || m == 0x42 => {},
        Some(_) => {
            return Err(RuleError::NoBirths);
        },
        None => {
            return Err(RuleError::NoBirths);
        },
    }
    proof {
        assert(bytes@.subrange(1, bytes@.len() as int) =~= bytes@.skip(1));
    }
    parse_rule_body(rest, true)
}

/// Parse a nameless rule of the form `3/23`, as found in `#r` comment
/// lines of RLE files, with an optional topology suffix.
pub fn parse_nameless_rule(bytes: &[u8]) -> (r: Result<(RuleSet, &[u8]), RuleError>)
    ensures
        match r {
            Ok(p) => ({
                &&& spec_nameless_body(bytes@) matches Some((b, s, mid))
                &&& p.0.spec_births() == b & 0x1FF
                &&& p.0.spec_survivals() == s & 0x1FF
                &&& if mid.len() > 0 && mid[0] == 0x3A {
                    spec_parse_ext(mid) matches Some((e, rest2)) && p.0.spec_extension() == Some(e)
                        && p.1@ == rest2
                } else {
                    p.0.spec_extension() is None && p.1@ == mid
                }
            }),
            Err(_) => match spec_nameless_body(bytes@) {
                Some((b, s, mid)) => mid.len() > 0 && mid[0] == 0x3A && spec_parse_ext(mid)
                    is None,
                None => true,
            },
        },
{
    parse_rule_body(bytes, false)
}

/// Parse a topology suffix `:<T|P|K|S|C><w>,<h>` where `w` and `h` are
/// numbers or `*` for unbounded. Succeeds exactly when the suffix is
/// well-formed and ends at whitespace.
pub fn parse_rule_extension(bytes: &[u8]) -> (r: Result<(RuleExtension, &[u8]), RuleExtensionError>)
    ensures
        match r {
            Ok(p) => spec_parse_ext(bytes@) == Some((p.0, p.1@)),
            Err(_) => spec_parse_ext(bytes@) is None,
        },
{
    let rest = match parse_util::expect(0x3A, bytes) {
        Ok(rest) => rest,
        Err(e) => {
            return Err(RuleExtensionError::ParseError(e));
        },
    };
    proof {
        assert(bytes@.subrange(1, bytes@.len() as int) =~= bytes@.skip(1));
    }
    let (tb, rest) = parse_util::take_1(rest);
    let tb = match tb {
        Some(b) => b,
        None => {
            return Err(RuleExtensionError::UnexpectedEof);
        },
    };
    let topology = if tb == 0x50 {
        RuleTopology::Planar
    } else if tb == 0x54 {
        RuleTopology::Torus
    } else if tb == 0x4B {
        RuleTopology::KleinBottle
    } else if tb == 0x53 {
        RuleTopology::Spherical
    } else if tb == 0x43 {
        RuleTopology::Cylindrical
    } else {
        return Err(RuleExtensionError::UnrecognizedTopology { got: tb as char });
    };
    proof {
        assert(bytes@.skip(1).subrange(1, bytes@.len() - 1) =~= bytes@.skip(2));
        lemma_until_count(bytes@.skip(2), 0x2C);
    }
    let ghost w = bytes@.skip(2);
    let (width_bs, rest) = parse_util::take_until(0x2C, rest);
    let width_bs = match width_bs {
        Some(d) => d,
        None => {
            return Err(RuleExtensionError::NoWidth);
        },
    };
    let width = match parse_size(width_bs) {
        Some(sz) => sz,
        None => {
            return Err(RuleExtensionError::ParseWidth { got: slice_copy(width_bs) });
        },
    };
    let rest = match parse_util::expect(0x2C, rest) {
        Ok(rest) => rest,
        Err(e) => {
            return Err(RuleExtensionError::ParseError(e));
        },
    };
    let ghost i = until_count(w, 0x2C);
    proof {
        assert(w.subrange(i, w.len() as int).subrange(1, w.len() - i) =~= w.skip(i + 1));
        lemma_until_ws_count(w.skip(i + 1));
    }
    let ghost h = w.skip(i + 1);
    let (height_bs, rest) = parse_util::take_until_ws(rest);
    let height_bs = match height_bs {
        Some(d) => d,
        None => {
            return Err(RuleExtensionError::NoHeight);
        },
    };
    let height = match parse_size(height_bs) {
        Some(sz) => sz,
        None => {
            return Err(RuleExtensionError::ParseHeight { got: slice_copy(height_bs) });
        },
    };
    let ghost j = until_ws_count(h);
    proof {
        assert(h.subrange(j, h.len() as int) =~= h.skip(j));
    }
    Ok((RuleExtension { topology, width, height }, rest))
}

/// Parse a width or height field: a `u32` numeral or `*`.
fn parse_size(bytes: &[u8]) -> (r: Option<RuleSize>)
    ensures
        r == spec_size(bytes@),
{
    match parse_util::convert(bytes) {
        Ok(v) => {
            if 0 <= v && v <= 0xFFFF_FFFFi128 && bytes[0] != 0x2D {
                return Some(RuleSize::Bounded(v as u32));
            }
            if bytes.len() == 1 && bytes[0] == 0x2A {
                proof {
                    assert(bytes@ =~= seq![0x2Au8]);
                }
                return Some(RuleSize::Unbounded);
            }
            proof {
                lemma_numeral_not_star(bytes@);
            }
            None
        },
        Err(_) => {
            if bytes.len() == 1 && bytes[0] == 0x2A {
                proof {
                    assert(bytes@ =~= seq![0x2Au8]);
                }
                Some(RuleSize::Unbounded)
            } else {
                None
            }
        },
    }
}

/// A well-formed numeral is never the single byte `*`, and a numeral that
/// is in range for `convert` but too large for `u32`, or negative, names
/// no size.
proof fn lemma_numeral_not_star(s: Seq<u8>)
    requires
        is_numeral(s),
    ensures
        !(s =~= seq![0x2Au8]),
{
    assert(s.len() > 0);
    if s =~= seq![0x2Au8] {
        assert(s[0] == 0x2A);
        assert(!parse_util::is_digit(s[0]));
    }
}

/// Copy a borrowed slice for an error report.
fn slice_copy(bytes: &[u8]) -> (r: Vec<u8>)
    ensures
        r@ == bytes@,
{
    let mut v: Vec<u8> = Vec::new();
    let mut i: usize = 0;
    while i < bytes.len()
        invariant
            0 <= i <= bytes@.len(),
            v@ == bytes@.subrange(0, i as int),
        decreases bytes@.len() - i,
    {
        v.push(bytes[i]);
        proof {
            assert(v@ =~= bytes@.subrange(0, i + 1));
        }
        i += 1;
    }
    proof {
        assert(bytes@.subrange(0, bytes@.len() as int) =~= bytes@);
    }
    v
}

} // verus!
