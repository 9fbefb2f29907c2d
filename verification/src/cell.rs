//! The quadtree node representation.
//!
//! A node is four machine words. For an interior node each word is an arena
//! index naming a child; for a leaf the four words hold the four 4x4 quadrant
//! bitmaps directly, and the top bit of the `nw` word is set as a tag. One bit
//! of the index space is therefore reserved, and the arena can never hold
//! `LEAF_MASK` or more entries.

use vstd::prelude::*;

verus! {

use crate::cellbuf::ARENA_CAP;
use crate::cellbuf::CapacityError;
use crate::cellbuf::CellBuf;

/// The tag bit marking a leaf: the top bit of the `nw` field.
pub const LEAF_MASK: usize = usize::MAX / 2 + 1;

/// A result-cache entry with this bit set means "not yet computed".
pub const RES_UNSET_MASK: usize = usize::MAX / 2 + 1;

/// Either an index into the arena or a tagged leaf word.
pub type CellHash = usize;

/// A quadtree node: four child indices, or four quadrant bitmaps plus the
/// leaf tag on `nw`.
#[derive(PartialEq, Eq, Structural, Clone, Copy, Debug)]
pub struct Cell {
    pub nw: CellHash,
    pub ne: CellHash,
    pub sw: CellHash,
    pub se: CellHash,
}

/// The canonical empty cell: all four fields zero, tag clear.
pub open spec fn void_cell() -> Cell {
    Cell { nw: 0, ne: 0, sw: 0, se: 0 }
}

/// A leaf cell built from four quadrant bitmaps, with the tag bit set.
pub open spec fn leaf_cell(nw: u16, ne: u16, sw: u16, se: u16) -> Cell {
    Cell {
        nw: (nw + LEAF_MASK) as usize,
        ne: ne as usize,
        sw: sw as usize,
        se: se as usize,
    }
}

impl Cell {
    /// The tag bit is set exactly when `nw` is at least `LEAF_MASK`.
    pub open spec fn spec_is_leaf(&self) -> bool {
        self.nw >= LEAF_MASK
    }

    /// The four quadrant bitmaps of a leaf, `nw` with the tag removed.
    pub open spec fn leaf_nw(self) -> u16 {
        (self.nw - LEAF_MASK) as u16
    }

    pub open spec fn leaf_ne(self) -> u16 {
        self.ne as u16
    }

    pub open spec fn leaf_sw(self) -> u16 {
        self.sw as u16
    }

    pub open spec fn leaf_se(self) -> u16 {
        self.se as u16
    }

    /// A structurally valid leaf: tagged, and every bitmap fits in 16 bits.
    pub open spec fn wf_leaf(self) -> bool {
        &&& self.spec_is_leaf()
        &&& self.nw - LEAF_MASK <= u16::MAX
        &&& self.ne <= u16::MAX
        &&& self.sw <= u16::MAX
        &&& self.se <= u16::MAX
    }

    /// Return the canonical "empty" cell. Cells of any level can point at the
    /// void cell wherever a quadrant happens to be empty.
    pub fn void() -> (r: Self)
        ensures
            r == void_cell(),
    {
        Self::uninit()
    }

    /// Return an all-zero cell.
    pub fn uninit() -> (r: Self)
        ensures
            r == void_cell(),
    {
        Self { nw: 0, ne: 0, sw: 0, se: 0 }
    }

    /// Create a new leaf cell from four quadrant bitmaps.
    pub fn leaf(nw: u16, ne: u16, sw: u16, se: u16) -> (r: Self)
        ensures
            r == leaf_cell(nw, ne, sw, se),
            r.wf_leaf(),
            r.leaf_nw() == nw,
            r.leaf_ne() == ne,
            r.leaf_sw() == sw,
            r.leaf_se() == se,
    {
        Self {
            nw: nw as usize + LEAF_MASK,
            ne: ne as usize,
            sw: sw as usize,
            se: se as usize,
        }
    }

    /// The all-dead leaf. Distinct from the void cell: it carries the tag.
    pub fn leaf_uninit() -> (r: Self)
        ensures
            r == leaf_cell(0, 0, 0, 0),
    {
        Self::leaf(0, 0, 0, 0)
    }

    /// Create a new interior cell from four child indices.
    pub fn new(nw: usize, ne: usize, sw: usize, se: usize) -> (r: Self)
        ensures
            r == (Cell { nw, ne, sw, se }),
    {
        Self { nw, ne, sw, se }
    }

    /// Check whether the cell is the void cell.
    pub fn is_void(&self) -> (r: bool)
        ensures
            r == (*self == void_cell()),
    {
        *self == Self::void()
    }

    /// Check whether the cell carries the leaf tag.
    #[verifier::when_used_as_spec(spec_is_leaf)]
    pub fn is_leaf(&self) -> (r: bool)
        ensures
            r == self.spec_is_leaf(),
    {
        self.nw >= LEAF_MASK
    }

    /// Hash of an interior cell: `se + 3*(sw + 3*(ne + 3*nw + 3))` in
    /// wrapping machine arithmetic.
    pub open spec fn spec_node_hash(&self) -> usize {
        self.se.wrapping_add(
            self.sw.wrapping_add(self.ne.wrapping_add(self.nw.wrapping_mul(3).wrapping_add(3)).wrapping_mul(3)).wrapping_mul(3),
        )
    }

    /// Hash of a leaf cell: `se + 9*(sw + 9*(ne + 9*nw))` in wrapping
    /// machine arithmetic.
    pub open spec fn spec_leaf_hash(&self) -> usize {
        self.se.wrapping_add(
            self.sw.wrapping_add(self.ne.wrapping_add(self.nw.wrapping_mul(9)).wrapping_mul(9)).wrapping_mul(9),
        )
    }

    /// The hash under which the arena stores this cell.
    pub open spec fn spec_hash(&self) -> usize {
        if self.spec_is_leaf() {
            self.spec_leaf_hash()
        } else {
            self.spec_node_hash()
        }
    }

    /// Hash the cell. Equal cells hash equally; that is all the arena needs.
    pub fn hash(&self) -> (r: CellHash)
        ensures
            r == self.spec_hash(),
    {
        if self.is_leaf() {
            self.leaf_hash()
        } else {
            self.node_hash()
        }
    }

    /// Hash the cell as an interior node.
    fn node_hash(&self) -> (r: CellHash)
        ensures
            r == self.spec_node_hash(),
    {
        self.se.wrapping_add(
            self.sw.wrapping_add(self.ne.wrapping_add(self.nw.wrapping_mul(3).wrapping_add(3)).wrapping_mul(3)).wrapping_mul(3),
        )
    }

    /// Hash the cell as a leaf.
    fn leaf_hash(&self) -> (r: CellHash)
        ensures
            r == self.spec_leaf_hash(),
    {
        self.se.wrapping_add(
            self.sw.wrapping_add(self.ne.wrapping_add(self.nw.wrapping_mul(9)).wrapping_mul(9)).wrapping_mul(9),
        )
    }

    /// The four child indices of an interior cell.
    pub fn children(&self) -> (r: Option<[usize; 4]>)
        ensures
            r == if self.spec_is_leaf() {
                Option::<[usize; 4]>::None
            } else {
                Option::Some([self.nw, self.ne, self.sw, self.se])
            },
    {
        if self.is_leaf() {
            None
        } else {
            Some([self.nw, self.ne, self.sw, self.se])
        }
    }
}

/// The `nw` quadrant bitmap of a leaf-level cell, zero for the void cell.
pub open spec fn quad_nw(c: Cell) -> u16 {
    if c == void_cell() {
        0
    } else {
        c.leaf_nw()
    }
}

pub open spec fn quad_ne(c: Cell) -> u16 {
    if c == void_cell() {
        0
    } else {
        c.leaf_ne()
    }
}

pub open spec fn quad_sw(c: Cell) -> u16 {
    if c == void_cell() {
        0
    } else {
        c.leaf_sw()
    }
}

pub open spec fn quad_se(c: Cell) -> u16 {
    if c == void_cell() {
        0
    } else {
        c.leaf_se()
    }
}

impl Cell {
    /// The four quadrant bitmaps of a leaf-level cell, all zero for the void
    /// cell.
    pub fn quadrants(&self) -> (r: (u16, u16, u16, u16))
        requires
            *self == void_cell() || self.wf_leaf(),
        ensures
            r.0 == quad_nw(*self),
            r.1 == quad_ne(*self),
            r.2 == quad_sw(*self),
            r.3 == quad_se(*self),
    {
        if self.is_leaf() {
            (
                (self.nw - LEAF_MASK) as u16,
                self.ne as u16,
                self.sw as u16,
                self.se as u16,
            )
        } else {
            (0, 0, 0, 0)
        }
    }
}

/// True when bit `i` of `q` is set.
pub open spec fn u16_bit(q: u16, i: u16) -> bool {
    ((q >> i) & 1) == 1
}

/// Whether the leaf or void cell `c` is alive at leaf-local coordinates
/// `x, y`, each in `[-4, 4)`. Within a quadrant bitmap, row 0 is the top row
/// and the most significant bit of a row is its leftmost cell, so the bit
/// index is `3 - (x mod 4) + 4 * (y mod 4)`.
pub open spec fn leaf_alive(c: Cell, x: int, y: int) -> bool {
    if c == void_cell() {
        false
    } else {
        let q = if x < 0 {
            if y >= 0 {
                c.leaf_nw()
            } else {
                c.leaf_sw()
            }
        } else {
            if y >= 0 {
                c.leaf_ne()
            } else {
                c.leaf_se()
            }
        };
        u16_bit(q, (3 - (x % 4) + 4 * (y % 4)) as u16)
    }
}

/// Structural well-formedness of `c` as a level-`level` cell over the arena
/// contents `nodes`: a cell is the void cell, a tagged 16-bit leaf at level 3,
/// or an untagged interior cell whose four children are well-formed one level
/// down.
pub open spec fn wf_at(nodes: Seq<Cell>, c: Cell, level: nat) -> bool
    decreases level,
{
    if level <= 3 {
        level == 3 && (c == void_cell() || c.wf_leaf())
    } else {
        c == void_cell() || {
            &&& !c.spec_is_leaf()
            &&& c.nw < nodes.len()
            &&& c.ne < nodes.len()
            &&& c.sw < nodes.len()
            &&& c.se < nodes.len()
            &&& wf_at(nodes, nodes[c.nw as int], (level - 1) as nat)
            &&& wf_at(nodes, nodes[c.ne as int], (level - 1) as nat)
            &&& wf_at(nodes, nodes[c.sw as int], (level - 1) as nat)
            &&& wf_at(nodes, nodes[c.se as int], (level - 1) as nat)
        }
    }
}

/// Whether the level-`level` cell `c` is alive at local coordinates `x, y`,
/// each in `[-2^(level-1), 2^(level-1))`. The children span the four signed
/// quadrants: NW is (-,+), NE is (+,+), SW is (-,-), SE is (+,-), and y grows
/// upward.
pub open spec fn alive_at(nodes: Seq<Cell>, c: Cell, level: nat, x: int, y: int) -> bool
    decreases level,
{
    if level <= 3 {
        leaf_alive(c, x, y)
    } else if c == void_cell() {
        false
    } else {
        let h = vstd::arithmetic::power2::pow2((level - 2) as nat) as int;
        if x < 0 {
            if y >= 0 {
                alive_at(nodes, nodes[c.nw as int], (level - 1) as nat, x + h, y - h)
            } else {
                alive_at(nodes, nodes[c.sw as int], (level - 1) as nat, x + h, y + h)
            }
        } else {
            if y >= 0 {
                alive_at(nodes, nodes[c.ne as int], (level - 1) as nat, x - h, y - h)
            } else {
                alive_at(nodes, nodes[c.se as int], (level - 1) as nat, x - h, y + h)
            }
        }
    }
}

/// Extending the arena preserves well-formedness: `wf_at` only reads indices
/// below the old length.
pub proof fn lemma_wf_mono(nodes1: Seq<Cell>, nodes2: Seq<Cell>, c: Cell, level: nat)
    requires
        wf_at(nodes1, c, level),
        nodes1.len() <= nodes2.len(),
        forall|i: int| 0 <= i < nodes1.len() ==> nodes2[i] == nodes1[i],
    ensures
        wf_at(nodes2, c, level),
    decreases level,
{
    if level > 3 && c != void_cell() {
        lemma_wf_mono(nodes1, nodes2, nodes1[c.nw as int], (level - 1) as nat);
        lemma_wf_mono(nodes1, nodes2, nodes1[c.ne as int], (level - 1) as nat);
        lemma_wf_mono(nodes1, nodes2, nodes1[c.sw as int], (level - 1) as nat);
        lemma_wf_mono(nodes1, nodes2, nodes1[c.se as int], (level - 1) as nat);
    }
}

/// Extending the arena also preserves every answer `alive_at` gives.
pub proof fn lemma_alive_mono(nodes1: Seq<Cell>, nodes2: Seq<Cell>, c: Cell, level: nat, x: int, y: int)
    requires
        wf_at(nodes1, c, level),
        nodes1.len() <= nodes2.len(),
        forall|i: int| 0 <= i < nodes1.len() ==> nodes2[i] == nodes1[i],
    ensures
        alive_at(nodes2, c, level, x, y) == alive_at(nodes1, c, level, x, y),
    decreases level,
{
    if level > 3 && c != void_cell() {
        let h = vstd::arithmetic::power2::pow2((level - 2) as nat) as int;
        if x < 0 {
            if y >= 0 {
                lemma_alive_mono(nodes1, nodes2, nodes1[c.nw as int], (level - 1) as nat, x + h, y - h);
            } else {
                lemma_alive_mono(nodes1, nodes2, nodes1[c.sw as int], (level - 1) as nat, x + h, y + h);
            }
        } else {
            if y >= 0 {
                lemma_alive_mono(nodes1, nodes2, nodes1[c.ne as int], (level - 1) as nat, x - h, y - h);
            } else {
                lemma_alive_mono(nodes1, nodes2, nodes1[c.se as int], (level - 1) as nat, x - h, y + h);
            }
        }
    }
}

/// A cell other than the void cell is well-formed at one level at most,
/// provided arena slot 0 is the only slot holding the void cell.
pub proof fn lemma_level_unique(nodes: Seq<Cell>, c: Cell, k1: nat, k2: nat)
    requires
        c != void_cell(),
        wf_at(nodes, c, k1),
        wf_at(nodes, c, k2),
        forall|i: int| 1 <= i < nodes.len() ==> nodes[i] != void_cell(),
    ensures
        k1 == k2,
    decreases k1,
{
    if k1 > 3 && k2 > 3 {
        if c.nw != 0 {
            lemma_level_unique(nodes, nodes[c.nw as int], (k1 - 1) as nat, (k2 - 1) as nat);
        } else if c.ne != 0 {
            lemma_level_unique(nodes, nodes[c.ne as int], (k1 - 1) as nat, (k2 - 1) as nat);
        } else if c.sw != 0 {
            lemma_level_unique(nodes, nodes[c.sw as int], (k1 - 1) as nat, (k2 - 1) as nat);
        } else {
            lemma_level_unique(nodes, nodes[c.se as int], (k1 - 1) as nat, (k2 - 1) as nat);
        }
    }
}

/// The one-generation-squared leaf successor, as a function of the four
/// quadrant bitmaps and the rule table: extract the nine overlapping 4x4
/// sub-squares of the 8x8, look each up, and recombine the four central
/// results. `result` on a leaf advances it two generations this way.
pub open spec fn spec_leaf_res(nw: u16, ne: u16, sw: u16, se: u16, table: Seq<u16>) -> u16 {
    let t00 = nw;
    let t01 = ((nw & 0b0011_0011_0011_0011) << 2) | ((ne & 0b1100_1100_1100_1100) >> 2);
    let t02 = ne;
    let t10 = ((nw & 0b0000_0000_1111_1111) << 8) | ((sw & 0b1111_1111_0000_0000) >> 8);
    let t11 = ((nw & 0b0000_0000_0011_0011) << 10) | ((ne & 0b0000_0000_1100_1100) << 6) | ((sw
        & 0b0011_0011_0000_0000) >> 6) | ((se & 0b1100_1100_0000_0000) >> 10);
    let t12 = ((ne & 0b0000_0000_1111_1111) << 8) | ((se & 0b1111_1111_0000_0000) >> 8);
    let t20 = sw;
    let t21 = ((sw & 0b0011_0011_0011_0011) << 2) | ((se & 0b1100_1100_1100_1100) >> 2);
    let t22 = se;
    let n00 = table[t00 as int];
    let n01 = table[t01 as int];
    let n02 = table[t02 as int];
    let n10 = table[t10 as int];
    let n11 = table[t11 as int];
    let n12 = table[t12 as int];
    let n20 = table[t20 as int];
    let n21 = table[t21 as int];
    let n22 = table[t22 as int];
    let tl = (n00 << 5) | (n01 << 3) | (n10 >> 3) | (n11 >> 5);
    let tr = (n01 << 5) | (n02 << 3) | (n11 >> 3) | (n12 >> 5);
    let bl = (n10 << 5) | (n11 << 3) | (n20 >> 3) | (n21 >> 5);
    let br = (n11 << 5) | (n12 << 3) | (n21 >> 3) | (n22 >> 5);
    (table[tl as int] << 5) | (table[tr as int] << 3) | (table[bl as int] >> 3) | (table[br as int]
        >> 5)
}

/// `spec_leaf_res` applied to a leaf-level cell.
pub open spec fn spec_leaf_res_of(c: Cell, table: Seq<u16>) -> u16 {
    spec_leaf_res(quad_nw(c), quad_ne(c), quad_sw(c), quad_se(c), table)
}

impl Cell {
    /// For a leaf cell, compute its level-2 result: the central 4x4 after
    /// two generations, per the nine-sub-square scheme of `spec_leaf_res`.
    /// `next` is the rule table, where `next[rule]` is the one-generation
    /// successor of the 4x4 configuration `rule`.
    pub fn compute_leaf_res(&self, next: &Vec<u16>) -> (r: u16)
        requires
            *self == void_cell() || self.wf_leaf(),
            next@.len() == 0x10000,
        ensures
            r == spec_leaf_res_of(*self, next@),
    {
        let (qnw, qne, qsw, qse) = self.quadrants();

        // the nine overlapping 4x4 sub-squares of the 8x8, whose
        // upper-left corners sit at even offsets
        let t00 = qnw;

        let t01 = ((qnw & 0b0011_0011_0011_0011) << 2)
                | ((qne & 0b1100_1100_1100_1100) >> 2);

        let t02 = qne;

        let t10 = ((qnw & 0b0000_0000_1111_1111) << 8)
                | ((qsw & 0b1111_1111_0000_0000) >> 8);

        let t11 = ((qnw & 0b0000_0000_0011_0011) << 10)
                | ((qne & 0b0000_0000_1100_1100) << 6)
                | ((qsw & 0b0011_0011_0000_0000) >> 6)
                | ((qse & 0b1100_1100_0000_0000) >> 10);

        let t12 = ((qne & 0b0000_0000_1111_1111) << 8)
                | ((qse & 0b1111_1111_0000_0000) >> 8);

        let t20 = qsw;

        let t21 = ((qsw & 0b0011_0011_0011_0011) << 2)
                | ((qse & 0b1100_1100_1100_1100) >> 2);

        let t22 = qse;

        // one generation: the central 2x2 of each sub-square
        let n00 = next[t00 as usize];
        let n01 = next[t01 as usize];
        let n02 = next[t02 as usize];
        let n10 = next[t10 as usize];
        let n11 = next[t11 as usize];
        let n12 = next[t12 as usize];
        let n20 = next[t20 as usize];
        let n21 = next[t21 as usize];
        let n22 = next[t22 as usize];

        // n00 n01 n02
        // n10 n11 n12
        // n20 n21 n22
        let tl = (n00 << 5) | (n01 << 3) | (n10 >> 3) | (n11 >> 5);
        let tr = (n01 << 5) | (n02 << 3) | (n11 >> 3) | (n12 >> 5);
        let bl = (n10 << 5) | (n11 << 3) | (n20 >> 3) | (n21 >> 5);
        let br = (n11 << 5) | (n12 << 3) | (n21 >> 3) | (n22 >> 5);

        // a second generation of the four assembled squares gives the
        // central 4x4 two generations on
        (next[tl as usize] << 5)
            | (next[tr as usize] << 3)
            | (next[bl as usize] >> 3)
            | (next[br as usize] >> 5)
    }
}

/// Takes a 4x4 rule value and returns the leaf holding it about its center.
pub fn rule_to_leaf(rule: u16) -> (r: Cell)
    ensures
        r == leaf_cell(
            (rule & 0b1100_1100_0000_0000) >> 10,
            (rule & 0b0011_0011_0000_0000) >> 6,
            (rule & 0b0000_0000_1100_1100) << 6,
            (rule & 0b0000_0000_0011_0011) << 10,
        ),
{
    let nw = (rule & 0b1100_1100_0000_0000) >> 10;
    let ne = (rule & 0b0011_0011_0000_0000) >> 6;
    let sw = (rule & 0b0000_0000_1100_1100) << 6;
    let se = (rule & 0b0000_0000_0011_0011) << 10;

    Cell::leaf(nw, ne, sw, se)
}

/// Given two cells `w` and `e` of one level, the cell at their shared
/// vertical edge: its children are the nearer pair of each.
pub fn h_center(w: Cell, e: Cell) -> (r: Cell)
    ensures
        r == (Cell { nw: w.ne, ne: e.nw, sw: w.se, se: e.sw }),
{
    Cell { nw: w.ne, ne: e.nw, sw: w.se, se: e.sw }
}

/// Given two cells `n` and `s` of one level, the cell at their shared
/// horizontal edge.
pub fn v_center(n: Cell, s: Cell) -> (r: Cell)
    ensures
        r == (Cell { nw: n.sw, ne: n.se, sw: s.nw, se: s.ne }),
{
    Cell { nw: n.sw, ne: n.se, sw: s.nw, se: s.ne }
}

/// The pseudo-leaf at the shared vertical edge of two leaf-level cells `w`
/// and `e`.
pub open spec fn spec_h_center8(w: Cell, e: Cell) -> Cell {
    leaf_cell(quad_ne(w), quad_nw(e), quad_se(w), quad_sw(e))
}

/// The pseudo-leaf at the shared horizontal edge of two leaf-level cells `n`
/// and `s`.
pub open spec fn spec_v_center8(n: Cell, s: Cell) -> Cell {
    leaf_cell(quad_sw(n), quad_se(n), quad_nw(s), quad_ne(s))
}

/// Given two leaf-level cells `w` and `e`, returns the leaf at their center.
pub fn h_center8(w: Cell, e: Cell) -> (r: Cell)
    requires
        w == void_cell() || w.wf_leaf(),
        e == void_cell() || e.wf_leaf(),
    ensures
        r == spec_h_center8(w, e),
        r.wf_leaf(),
{
    let (_, wne, _, wse) = w.quadrants();
    let (enw, _, esw, _) = e.quadrants();
    Cell::leaf(wne, enw, wse, esw)
}

/// Given two leaf-level cells `n` and `s`, returns the leaf at their center.
pub fn v_center8(n: Cell, s: Cell) -> (r: Cell)
    requires
        n == void_cell() || n.wf_leaf(),
        s == void_cell() || s.wf_leaf(),
    ensures
        r == spec_v_center8(n, s),
        r.wf_leaf(),
{
    let (_, _, nsw, nse) = n.quadrants();
    let (snw, sne, _, _) = s.quadrants();
    Cell::leaf(nsw, nse, snw, sne)
}

/// `newer` is `older` with zero or more cells appended: interning never
/// moves or rewrites an existing node.
pub open spec fn extends(older: Seq<Cell>, newer: Seq<Cell>) -> bool {
    older.len() <= newer.len() && forall|i: int| 0 <= i < older.len() ==> newer[i] == older[i]
}

/// Whether `(x, y)` lies in the square a level-`level` cell covers:
/// `[-2^(level-1), 2^(level-1))` on each axis.
pub open spec fn in_span(level: nat, x: int, y: int) -> bool {
    let half = vstd::arithmetic::power2::pow2((level - 1) as nat) as int;
    -half <= x < half && -half <= y < half
}

/// The all-zero bitmap has no live cell.
pub proof fn lemma_u16_bit_zero()
    by (bit_vector)
    ensures
        forall|i: u16| !#[trigger] u16_bit(0, i),
{
}

/// The void cell is dead everywhere.
pub proof fn lemma_void_dead(nodes: Seq<Cell>, level: nat, x: int, y: int)
    ensures
        !alive_at(nodes, void_cell(), level, x, y),
{
    if level <= 3 {
        assert(!leaf_alive(void_cell(), x, y));
    }
}

/// The void cell is well-formed at every level from 3 up.
pub proof fn lemma_void_wf(nodes: Seq<Cell>, level: nat)
    requires
        level >= 3,
    ensures
        wf_at(nodes, void_cell(), level),
{
}

impl Cell {
    /// Grow the cell about its center by a factor of two: wrap it in four
    /// freshly interned children, each empty except at the corner that faces
    /// the old cell's matching child. The grown cell shows exactly the old
    /// content, centered; everything outside the old span is dead.
    pub fn grow(&self, buf: &mut CellBuf, Ghost(level): Ghost<nat>) -> (r: Result<
        Cell,
        CapacityError,
    >)
        requires
            old(buf).inv(),
            level >= 3,
            wf_at(old(buf)@, *self, level),
        ensures
            final(buf).inv(),
            extends(old(buf)@, final(buf)@),
            final(buf).spec_table() == old(buf).spec_table(),
            match r {
                Ok(c) => {
                    &&& wf_at(final(buf)@, c, (level + 1) as nat)
                    &&& forall|x: int, y: int|
                        in_span((level + 1) as nat, x, y) ==> alive_at(
                            final(buf)@,
                            c,
                            (level + 1) as nat,
                            x,
                            y,
                        ) == (in_span(level, x, y) && alive_at(old(buf)@, *self, level, x, y))
                },
                Err(_) => final(buf)@ == old(buf)@ && final(buf)@.len() + 4 > ARENA_CAP,
            },
    {
        if self.is_void() {
            proof {
                assert forall|x: int, y: int|
                    in_span((level + 1) as nat, x, y) implies alive_at(
                    buf@,
                    void_cell(),
                    (level + 1) as nat,
                    x,
                    y,
                ) == (in_span(level, x, y) && alive_at(buf@, *self, level, x, y)) by {
                    lemma_void_dead(buf@, (level + 1) as nat, x, y);
                    lemma_void_dead(buf@, level, x, y);
                }
            }
            return Ok(Cell::void());
        }
        if self.node_count_room(buf) {
            return Err(CapacityError);
        }
        let ghost nodes0 = buf@;
        let nw: usize;
        let ne: usize;
        let sw: usize;
        let se: usize;
        if self.is_leaf() {
            let (qnw, qne, qsw, qse) = self.quadrants();
            nw = buf.leaf(0, 0, 0, qnw);
            ne = buf.leaf(0, 0, qne, 0);
            sw = buf.leaf(0, qsw, 0, 0);
            se = buf.leaf(qse, 0, 0, 0);
        } else {
            nw = buf.intern(0, 0, 0, self.nw);
            ne = buf.intern(0, 0, self.ne, 0);
            sw = buf.intern(0, self.sw, 0, 0);
            se = buf.intern(self.se, 0, 0, 0);
        }
        let r = Cell { nw, ne, sw, se };
        proof {
            self.lemma_grow_ok(nodes0, buf@, r, level);
        }
        Ok(r)
    }

    /// True when fewer than four slots remain below the arena cap.
    fn node_count_room(&self, buf: &CellBuf) -> (r: bool)
        ensures
            r == (buf@.len() + 4 > ARENA_CAP),
    {
        buf.node_count() > ARENA_CAP - 4
    }

    /// The grown cell `r` is well-formed one level up and shows the old
    /// content centered.
    proof fn lemma_grow_ok(&self, nodes0: Seq<Cell>, nodes: Seq<Cell>, r: Cell, level: nat)
        requires
            level >= 3,
            *self != void_cell(),
            wf_at(nodes0, *self, level),
            extends(nodes0, nodes),
            r.nw < nodes.len(),
            r.ne < nodes.len(),
            r.sw < nodes.len(),
            r.se < nodes.len(),
            nodes.len() < LEAF_MASK,
            self.spec_is_leaf() ==> {
                &&& nodes[r.nw as int] == leaf_cell(0, 0, 0, quad_nw(*self))
                &&& nodes[r.ne as int] == leaf_cell(0, 0, quad_ne(*self), 0)
                &&& nodes[r.sw as int] == leaf_cell(0, quad_sw(*self), 0, 0)
                &&& nodes[r.se as int] == leaf_cell(quad_se(*self), 0, 0, 0)
            },
            !self.spec_is_leaf() ==> {
                &&& nodes[r.nw as int] == (Cell { nw: 0, ne: 0, sw: 0, se: self.nw })
                &&& nodes[r.ne as int] == (Cell { nw: 0, ne: 0, sw: self.ne, se: 0 })
                &&& nodes[r.sw as int] == (Cell { nw: 0, ne: self.sw, sw: 0, se: 0 })
                &&& nodes[r.se as int] == (Cell { nw: self.se, ne: 0, sw: 0, se: 0 })
            },
            nodes0.len() >= 1 ==> nodes0[0] == void_cell(),
            nodes0.len() >= 1,
        ensures
            wf_at(nodes, r, (level + 1) as nat),
            forall|x: int, y: int|
                in_span((level + 1) as nat, x, y) ==> #[trigger] alive_at(
                    nodes,
                    r,
                    (level + 1) as nat,
                    x,
                    y,
                ) == (in_span(level, x, y) && alive_at(nodes0, *self, level, x, y)),
    {
        lemma_wf_mono(nodes0, nodes, *self, level);
        vstd::arithmetic::power2::lemma_pow2_pos((level - 2) as nat);
        vstd::arithmetic::power2::lemma_pow2_unfold((level - 1) as nat);
        vstd::arithmetic::power2::lemma_pow2_unfold(level);
        let h = vstd::arithmetic::power2::pow2((level - 2) as nat) as int;
        let hh = vstd::arithmetic::power2::pow2((level - 1) as nat) as int;
        // well-formedness of the four wrap children
        if self.spec_is_leaf() {
            assert(level == 3) by {
                if level > 3 {
                    assert(!self.spec_is_leaf());
                }
            }
            assert(vstd::arithmetic::power2::pow2(2) == 4) by {
                vstd::arithmetic::power2::lemma2_to64();
            }
            assert(wf_at(nodes, nodes[r.nw as int], level));
            assert(wf_at(nodes, nodes[r.ne as int], level));
            assert(wf_at(nodes, nodes[r.sw as int], level));
            assert(wf_at(nodes, nodes[r.se as int], level));
        } else {
            assert(level > 3) by {
                if level == 3 {
                    assert(self.wf_leaf());
                }
            }
            lemma_void_wf(nodes, (level - 1) as nat);
            assert(nodes[0] == void_cell());
            assert(wf_at(nodes, nodes[self.nw as int], (level - 1) as nat));
            assert(wf_at(nodes, nodes[self.ne as int], (level - 1) as nat));
            assert(wf_at(nodes, nodes[self.sw as int], (level - 1) as nat));
            assert(wf_at(nodes, nodes[self.se as int], (level - 1) as nat));
            assert(wf_at(nodes, nodes[r.nw as int], level));
            assert(wf_at(nodes, nodes[r.ne as int], level));
            assert(wf_at(nodes, nodes[r.sw as int], level));
            assert(wf_at(nodes, nodes[r.se as int], level));
        }
        assert(!r.spec_is_leaf());
        assert(wf_at(nodes, r, (level + 1) as nat));
        lemma_u16_bit_zero();
        assert forall|x: int, y: int| in_span((level + 1) as nat, x, y) implies #[trigger] alive_at(
            nodes,
            r,
            (level + 1) as nat,
            x,
            y,
        ) == (in_span(level, x, y) && alive_at(nodes0, *self, level, x, y)) by {
            lemma_alive_mono(nodes0, nodes, *self, level, x, y);
            if self.spec_is_leaf() {
                self.lemma_grow_alive_leaf(nodes, r, x, y);
                assert(alive_at(nodes0, *self, level, x, y) == leaf_alive(*self, x, y));
            } else {
                self.lemma_grow_alive_node(nodes, r, level, x, y);
            }
        }
    }

    /// The centering argument for a grown leaf: the wrap children carry the
    /// old quadrant bitmaps in their diagonally opposite corners.
    proof fn lemma_grow_alive_leaf(&self, nodes: Seq<Cell>, r: Cell, x: int, y: int)
        requires
            self.wf_leaf(),
            *self != void_cell(),
            !r.spec_is_leaf(),
            r.nw < nodes.len(),
            r.ne < nodes.len(),
            r.sw < nodes.len(),
            r.se < nodes.len(),
            nodes[r.nw as int] == leaf_cell(0, 0, 0, quad_nw(*self)),
            nodes[r.ne as int] == leaf_cell(0, 0, quad_ne(*self), 0),
            nodes[r.sw as int] == leaf_cell(0, quad_sw(*self), 0, 0),
            nodes[r.se as int] == leaf_cell(quad_se(*self), 0, 0, 0),
            nodes.len() >= 1,
            nodes[0] == void_cell(),
            -8 <= x < 8,
            -8 <= y < 8,
        ensures
            alive_at(nodes, r, 4, x, y) == (in_span(3, x, y) && leaf_alive(*self, x, y)),
    {
        vstd::arithmetic::power2::lemma2_to64();
        lemma_u16_bit_zero();
        lemma_mod_shift4(x);
        lemma_mod_shift4(y);
        assert(vstd::arithmetic::power2::pow2(2) == 4);
        assert(in_span(3, x, y) == (-4 <= x < 4 && -4 <= y < 4));
        let wnw = leaf_cell(0, 0, 0, quad_nw(*self));
        let wne = leaf_cell(0, 0, quad_ne(*self), 0);
        let wsw = leaf_cell(0, quad_sw(*self), 0, 0);
        let wse = leaf_cell(quad_se(*self), 0, 0, 0);
        assert(wnw.wf_leaf() && wne.wf_leaf() && wsw.wf_leaf() && wse.wf_leaf());
        assert(r != void_cell()) by {
            if r.nw == 0 {
                assert(nodes[0] == wnw);
                assert(wnw.spec_is_leaf());
            }
        }
        if x < 0 {
            if y >= 0 {
                assert(alive_at(nodes, r, 4, x, y) == alive_at(nodes, wnw, 3, x + 4, y - 4));
                assert(alive_at(nodes, wnw, 3, x + 4, y - 4) == leaf_alive(wnw, x + 4, y - 4));
            } else {
                assert(alive_at(nodes, r, 4, x, y) == alive_at(nodes, wsw, 3, x + 4, y + 4));
                assert(alive_at(nodes, wsw, 3, x + 4, y + 4) == leaf_alive(wsw, x + 4, y + 4));
            }
        } else {
            if y >= 0 {
                assert(alive_at(nodes, r, 4, x, y) == alive_at(nodes, wne, 3, x - 4, y - 4));
                assert(alive_at(nodes, wne, 3, x - 4, y - 4) == leaf_alive(wne, x - 4, y - 4));
            } else {
                assert(alive_at(nodes, r, 4, x, y) == alive_at(nodes, wse, 3, x - 4, y + 4));
                assert(alive_at(nodes, wse, 3, x - 4, y + 4) == leaf_alive(wse, x - 4, y + 4));
            }
        }
    }

    /// The centering argument for a grown interior node: descending two
    /// levels through a wrap child reaches the old cell's matching child at
    /// the same local coordinates.
    proof fn lemma_grow_alive_node(&self, nodes: Seq<Cell>, r: Cell, level: nat, x: int, y: int)
        requires
            level > 3,
            *self != void_cell(),
            !self.spec_is_leaf(),
            wf_at(nodes, *self, level),
            !r.spec_is_leaf(),
            r.nw < nodes.len(),
            r.ne < nodes.len(),
            r.sw < nodes.len(),
            r.se < nodes.len(),
            nodes[r.nw as int] == (Cell { nw: 0, ne: 0, sw: 0, se: self.nw }),
            nodes[r.ne as int] == (Cell { nw: 0, ne: 0, sw: self.ne, se: 0 }),
            nodes[r.sw as int] == (Cell { nw: 0, ne: self.sw, sw: 0, se: 0 }),
            nodes[r.se as int] == (Cell { nw: self.se, ne: 0, sw: 0, se: 0 }),
            nodes.len() >= 1,
            nodes[0] == void_cell(),
            in_span((level + 1) as nat, x, y),
        ensures
            alive_at(nodes, r, (level + 1) as nat, x, y) == (in_span(level, x, y) && alive_at(
                nodes,
                *self,
                level,
                x,
                y,
            )),
    {
        vstd::arithmetic::power2::lemma_pow2_pos((level - 2) as nat);
        vstd::arithmetic::power2::lemma_pow2_unfold((level - 1) as nat);
        vstd::arithmetic::power2::lemma_pow2_unfold(level);
        let h = vstd::arithmetic::power2::pow2((level - 2) as nat) as int;
        let hh = vstd::arithmetic::power2::pow2((level - 1) as nat) as int;
        assert(hh == 2 * h);
        let wnw = nodes[r.nw as int];
        let wne = nodes[r.ne as int];
        let wsw = nodes[r.sw as int];
        let wse = nodes[r.se as int];
        assert(r != void_cell()) by {
            if r.nw == 0 && r.ne == 0 && r.sw == 0 && r.se == 0 {
                assert(wse == void_cell());
                assert(self.se == 0 && wse.nw == self.se);
                assert(wnw == void_cell() && wne == void_cell() && wsw == void_cell());
                assert(*self == void_cell());
            }
        }
        if x < 0 {
            if y >= 0 {
                assert(alive_at(nodes, r, (level + 1) as nat, x, y) == alive_at(
                    nodes,
                    wnw,
                    level,
                    x + hh,
                    y - hh,
                ));
                if wnw == void_cell() {
                    lemma_void_dead(nodes, level, x + hh, y - hh);
                    assert(self.nw == 0);
                    if in_span(level, x, y) {
                        lemma_void_dead(nodes, (level - 1) as nat, x + h, y - h);
                    }
                } else if x + hh >= 0 && y - hh < 0 {
                    assert(alive_at(nodes, wnw, level, x + hh, y - hh) == alive_at(
                        nodes,
                        nodes[self.nw as int],
                        (level - 1) as nat,
                        x + hh - h,
                        y - hh + h,
                    ));
                    assert(x + hh - h == x + h && y - hh + h == y - h);
                } else {
                    lemma_void_dead(nodes, (level - 1) as nat, x + hh + h, y - hh - h);
                    lemma_void_dead(nodes, (level - 1) as nat, x + hh + h, y - hh + h);
                    lemma_void_dead(nodes, (level - 1) as nat, x + hh - h, y - hh - h);
                    assert(!in_span(level, x, y));
                }
            } else {
                assert(alive_at(nodes, r, (level + 1) as nat, x, y) == alive_at(
                    nodes,
                    wsw,
                    level,
                    x + hh,
                    y + hh,
                ));
                if wsw == void_cell() {
                    lemma_void_dead(nodes, level, x + hh, y + hh);
                    assert(self.sw == 0);
                    if in_span(level, x, y) {
                        lemma_void_dead(nodes, (level - 1) as nat, x + h, y + h);
                    }
                } else if x + hh >= 0 && y + hh >= 0 {
                    assert(alive_at(nodes, wsw, level, x + hh, y + hh) == alive_at(
                        nodes,
                        nodes[self.sw as int],
                        (level - 1) as nat,
                        x + hh - h,
                        y + hh - h,
                    ));
                } else {
                    lemma_void_dead(nodes, (level - 1) as nat, x + hh + h, y + hh + h);
                    lemma_void_dead(nodes, (level - 1) as nat, x + hh + h, y + hh - h);
                    lemma_void_dead(nodes, (level - 1) as nat, x + hh - h, y + hh + h);
                    assert(!in_span(level, x, y));
                }
            }
        } else {
            if y >= 0 {
                assert(alive_at(nodes, r, (level + 1) as nat, x, y) == alive_at(
                    nodes,
                    wne,
                    level,
                    x - hh,
                    y - hh,
                ));
                if wne == void_cell() {
                    lemma_void_dead(nodes, level, x - hh, y - hh);
                    assert(self.ne == 0);
                    if in_span(level, x, y) {
                        lemma_void_dead(nodes, (level - 1) as nat, x - h, y - h);
                    }
                } else if x - hh < 0 && y - hh < 0 {
                    assert(alive_at(nodes, wne, level, x - hh, y - hh) == alive_at(
                        nodes,
                        nodes[self.ne as int],
                        (level - 1) as nat,
                        x - hh + h,
                        y - hh + h,
                    ));
                } else {
                    lemma_void_dead(nodes, (level - 1) as nat, x - hh - h, y - hh - h);
                    lemma_void_dead(nodes, (level - 1) as nat, x - hh - h, y - hh + h);
                    lemma_void_dead(nodes, (level - 1) as nat, x - hh + h, y - hh - h);
                    assert(!in_span(level, x, y));
                }
            } else {
                assert(alive_at(nodes, r, (level + 1) as nat, x, y) == alive_at(
                    nodes,
                    wse,
                    level,
                    x - hh,
                    y + hh,
                ));
                if wse == void_cell() {
                    lemma_void_dead(nodes, level, x - hh, y + hh);
                    assert(self.se == 0);
                    if in_span(level, x, y) {
                        lemma_void_dead(nodes, (level - 1) as nat, x - h, y + h);
                    }
                } else if x - hh < 0 && y + hh >= 0 {
                    assert(alive_at(nodes, wse, level, x - hh, y + hh) == alive_at(
                        nodes,
                        nodes[self.se as int],
                        (level - 1) as nat,
                        x - hh + h,
                        y + hh - h,
                    ));
                } else {
                    lemma_void_dead(nodes, (level - 1) as nat, x - hh - h, y + hh + h);
                    lemma_void_dead(nodes, (level - 1) as nat, x - hh - h, y + hh - h);
                    lemma_void_dead(nodes, (level - 1) as nat, x - hh + h, y + hh + h);
                    assert(!in_span(level, x, y));
                }
            }
        }
    }
}

/// Given an interior cell, the cell one level down at its center: the four
/// inner grandchildren.
pub fn center(c: Cell, buf: &CellBuf) -> (r: Cell)
    requires
        !c.spec_is_leaf(),
        c.nw < buf@.len(),
        c.ne < buf@.len(),
        c.sw < buf@.len(),
        c.se < buf@.len(),
    ensures
        r == (Cell {
            nw: buf@[c.nw as int].se,
            ne: buf@[c.ne as int].sw,
            sw: buf@[c.sw as int].ne,
            se: buf@[c.se as int].nw,
        }),
{
    Cell {
        nw: buf.get(c.nw).se,
        ne: buf.get(c.ne).sw,
        sw: buf.get(c.sw).ne,
        se: buf.get(c.se).nw,
    }
}

/// The pseudo-leaf at the center of a level-4 cell, spliced from the inner
/// quadrants of its four leaf-level children.
pub open spec fn spec_center16(nodes: Seq<Cell>, c: Cell) -> Cell {
    leaf_cell(
        quad_se(nodes[c.nw as int]),
        quad_sw(nodes[c.ne as int]),
        quad_ne(nodes[c.sw as int]),
        quad_nw(nodes[c.se as int]),
    )
}

/// On a level-4 cell, the leaf at its center.
pub fn center16(cell: Cell, buf: &CellBuf) -> (r: Cell)
    requires
        wf_at(buf@, cell, 4),
        cell != void_cell(),
    ensures
        r == spec_center16(buf@, cell),
        r.wf_leaf(),
{
    let nw = buf.get(cell.nw);
    let ne = buf.get(cell.ne);
    let sw = buf.get(cell.sw);
    let se = buf.get(cell.se);
    proof {
        assert(wf_at(buf@, nw, 3) && wf_at(buf@, ne, 3) && wf_at(buf@, sw, 3) && wf_at(
            buf@,
            se,
            3,
        ));
    }
    let (_, _, _, a) = nw.quadrants();
    let (_, _, b, _) = ne.quadrants();
    let (_, c, _, _) = sw.quadrants();
    let (d, _, _, _) = se.quadrants();
    Cell::leaf(a, b, c, d)
}

impl Cell {
    /// Check whether the cell is a level-4 cell: an interior cell at least
    /// one of whose children is a leaf. Under well-formedness this holds of
    /// exactly the non-void level-4 cells.
    pub fn is_16(&self, buf: &CellBuf) -> (r: bool)
        requires
            !self.spec_is_leaf() ==> self.nw < buf@.len() && self.ne < buf@.len() && self.sw
                < buf@.len() && self.se < buf@.len(),
        ensures
            r == (!self.spec_is_leaf() && (buf@[self.nw as int].spec_is_leaf()
                || buf@[self.ne as int].spec_is_leaf() || buf@[self.sw as int].spec_is_leaf()
                || buf@[self.se as int].spec_is_leaf())),
    {
        !self.is_leaf() && (buf.get(self.nw).is_leaf() || buf.get(self.ne).is_leaf() || buf.get(
            self.sw,
        ).is_leaf() || buf.get(self.se).is_leaf())
    }
}

/// A quadtree read out of the arena into a self-contained value: the void
/// entry, a leaf with its four quadrant bitmaps, or an interior node with
/// its four subtrees. Results are specified over these trees, so their
/// contracts do not depend on which arena indices a run happens to assign.
pub enum NodeTree {
    Void,
    Leaf(u16, u16, u16, u16),
    Node(Box<NodeTree>, Box<NodeTree>, Box<NodeTree>, Box<NodeTree>),
}

impl NodeTree {
    /// The NW subtree of an interior tree; the void tree's subtrees are
    /// void.
    pub open spec fn nw(self) -> NodeTree {
        match self {
            NodeTree::Node(a, _, _, _) => *a,
            _ => self,
        }
    }

    pub open spec fn ne(self) -> NodeTree {
        match self {
            NodeTree::Node(_, b, _, _) => *b,
            _ => self,
        }
    }

    pub open spec fn sw(self) -> NodeTree {
        match self {
            NodeTree::Node(_, _, c, _) => *c,
            _ => self,
        }
    }

    pub open spec fn se(self) -> NodeTree {
        match self {
            NodeTree::Node(_, _, _, d) => *d,
            _ => self,
        }
    }

    /// The quadrant bitmaps of a leaf-level tree; the void tree is all
    /// dead.
    pub open spec fn quads(self) -> (u16, u16, u16, u16) {
        match self {
            NodeTree::Leaf(a, b, c, d) => (a, b, c, d),
            _ => (0, 0, 0, 0),
        }
    }
}

/// Read the subtree rooted at `c` out of the arena.
#[verifier::opaque]
pub open spec fn unfold(nodes: Seq<Cell>, c: Cell, level: nat) -> NodeTree
    decreases level,
{
    if c == void_cell() {
        NodeTree::Void
    } else if level <= 3 {
        NodeTree::Leaf(quad_nw(c), quad_ne(c), quad_sw(c), quad_se(c))
    } else {
        NodeTree::Node(
            Box::new(unfold(nodes, nodes[c.nw as int], (level - 1) as nat)),
            Box::new(unfold(nodes, nodes[c.ne as int], (level - 1) as nat)),
            Box::new(unfold(nodes, nodes[c.sw as int], (level - 1) as nat)),
            Box::new(unfold(nodes, nodes[c.se as int], (level - 1) as nat)),
        )
    }
}

/// Whether a result call returns the void index at once: the entry is the
/// void tree, or a spliced pseudo-node all of whose children are void and
/// which therefore interns to the void index.
pub open spec fn t_void_entry(t: NodeTree) -> bool {
    t == NodeTree::Void || (t matches NodeTree::Node(a, b, c, d) && *a == NodeTree::Void && *b
        == NodeTree::Void && *c == NodeTree::Void && *d == NodeTree::Void)
}

/// The tree at the shared vertical edge of two sibling trees.
pub open spec fn t_hc(w: NodeTree, e: NodeTree) -> NodeTree {
    NodeTree::Node(Box::new(w.ne()), Box::new(e.nw()), Box::new(w.se()), Box::new(e.sw()))
}

/// The tree at the shared horizontal edge of two sibling trees.
pub open spec fn t_vc(n: NodeTree, s: NodeTree) -> NodeTree {
    NodeTree::Node(Box::new(n.sw()), Box::new(n.se()), Box::new(s.nw()), Box::new(s.ne()))
}

/// The tree at the center of an interior tree: its four inner
/// grandchildren.
pub open spec fn t_center(t: NodeTree) -> NodeTree {
    NodeTree::Node(
        Box::new(t.nw().se()),
        Box::new(t.ne().sw()),
        Box::new(t.sw().ne()),
        Box::new(t.se().nw()),
    )
}

/// The result of a level-4 tree: the nine pseudo-leaves spliced from the
/// four leaf children each yield their level-2 result through the table,
/// the nine results assemble into four leaves, and their results form the
/// quadrants of the returned leaf.
pub open spec fn tree_res16(table: Seq<u16>, t: NodeTree) -> NodeTree {
    let (anw, ane, asw, ase) = t.nw().quads();
    let (bnw, bne, bsw, bse) = t.ne().quads();
    let (cnw, cne, csw, cse) = t.sw().quads();
    let (dnw, dne, dsw, dse) = t.se().quads();
    let n00 = spec_leaf_res(anw, ane, asw, ase, table);
    let n01 = spec_leaf_res(ane, bnw, ase, bsw, table);
    let n02 = spec_leaf_res(bnw, bne, bsw, bse, table);
    let n10 = spec_leaf_res(asw, ase, cnw, cne, table);
    let n11 = spec_leaf_res(ase, bsw, cne, dnw, table);
    let n12 = spec_leaf_res(bsw, bse, dnw, dne, table);
    let n20 = spec_leaf_res(cnw, cne, csw, cse, table);
    let n21 = spec_leaf_res(cne, dnw, cse, dsw, table);
    let n22 = spec_leaf_res(dnw, dne, dsw, dse, table);
    let tl = spec_leaf_res(n00, n01, n10, n11, table);
    let tr = spec_leaf_res(n01, n02, n11, n12, table);
    let bl = spec_leaf_res(n10, n11, n20, n21, table);
    let br = spec_leaf_res(n11, n12, n21, n22, table);
    NodeTree::Leaf(tl, tr, bl, br)
}

/// The memoized result as a function of the tree alone: the level-`k-1`
/// center of a level-`k` tree after `2^(k-2)` generations of the table's
/// rule, computed by the recursion the engine runs. A void entry
/// short-circuits to the void tree one level down.
#[verifier::opaque]
pub open spec fn tree_result(table: Seq<u16>, t: NodeTree, level: nat) -> NodeTree
    decreases level,
{
    if t_void_entry(t) {
        NodeTree::Void
    } else if level <= 4 {
        tree_res16(table, t)
    } else {
        let n00 = tree_result(table, t.nw(), (level - 1) as nat);
        let n01 = tree_result(table, t_hc(t.nw(), t.ne()), (level - 1) as nat);
        let n02 = tree_result(table, t.ne(), (level - 1) as nat);
        let n10 = tree_result(table, t_vc(t.nw(), t.sw()), (level - 1) as nat);
        let n11 = tree_result(table, t_center(t), (level - 1) as nat);
        let n12 = tree_result(table, t_vc(t.ne(), t.se()), (level - 1) as nat);
        let n20 = tree_result(table, t.sw(), (level - 1) as nat);
        let n21 = tree_result(table, t_hc(t.sw(), t.se()), (level - 1) as nat);
        let n22 = tree_result(table, t.se(), (level - 1) as nat);
        let tl = NodeTree::Node(
            Box::new(n00),
            Box::new(n01),
            Box::new(n10),
            Box::new(n11),
        );
        let tr = NodeTree::Node(
            Box::new(n01),
            Box::new(n02),
            Box::new(n11),
            Box::new(n12),
        );
        let bl = NodeTree::Node(
            Box::new(n10),
            Box::new(n11),
            Box::new(n20),
            Box::new(n21),
        );
        let br = NodeTree::Node(
            Box::new(n11),
            Box::new(n12),
            Box::new(n21),
            Box::new(n22),
        );
        let rnw = tree_result(table, tl, (level - 1) as nat);
        let rne = tree_result(table, tr, (level - 1) as nat);
        let rsw = tree_result(table, bl, (level - 1) as nat);
        let rse = tree_result(table, br, (level - 1) as nat);
        // four void sub-results intern to the void index, so the assembled
        // node is the void entry itself
        if rnw == NodeTree::Void && rne == NodeTree::Void && rsw == NodeTree::Void && rse
            == NodeTree::Void {
            NodeTree::Void
        } else {
            NodeTree::Node(Box::new(rnw), Box::new(rne), Box::new(rsw), Box::new(rse))
        }
    }
}

/// Whether the level-`level` tree is alive at local coordinates `(x, y)`.
pub open spec fn tree_alive(t: NodeTree, level: nat, x: int, y: int) -> bool
    decreases level,
{
    match t {
        NodeTree::Void => false,
        NodeTree::Leaf(a, b, c, d) => leaf_alive(leaf_cell(a, b, c, d), x, y),
        NodeTree::Node(a, b, c, d) => if level <= 3 {
            false
        } else {
            let h = vstd::arithmetic::power2::pow2((level - 2) as nat) as int;
            if x < 0 {
                if y >= 0 {
                    tree_alive(*a, (level - 1) as nat, x + h, y - h)
                } else {
                    tree_alive(*c, (level - 1) as nat, x + h, y + h)
                }
            } else {
                if y >= 0 {
                    tree_alive(*b, (level - 1) as nat, x - h, y - h)
                } else {
                    tree_alive(*d, (level - 1) as nat, x - h, y + h)
                }
            }
        },
    }
}

/// Extending the arena does not change what a well-formed cell unfolds to.
pub proof fn lemma_unfold_mono(nodes1: Seq<Cell>, nodes2: Seq<Cell>, c: Cell, level: nat)
    requires
        wf_at(nodes1, c, level),
        nodes1.len() <= nodes2.len(),
        forall|i: int| 0 <= i < nodes1.len() ==> nodes2[i] == nodes1[i],
    ensures
        unfold(nodes2, c, level) == unfold(nodes1, c, level),
    decreases level,
{
    reveal(crate::cell::unfold);
    if level > 3 && c != void_cell() {
        lemma_unfold_mono(nodes1, nodes2, nodes1[c.nw as int], (level - 1) as nat);
        lemma_unfold_mono(nodes1, nodes2, nodes1[c.ne as int], (level - 1) as nat);
        lemma_unfold_mono(nodes1, nodes2, nodes1[c.sw as int], (level - 1) as nat);
        lemma_unfold_mono(nodes1, nodes2, nodes1[c.se as int], (level - 1) as nat);
    }
}

/// Reading a cell's aliveness through the arena and through its unfolded
/// tree agree.
pub proof fn lemma_alive_unfold(nodes: Seq<Cell>, c: Cell, level: nat, x: int, y: int)
    requires
        wf_at(nodes, c, level),
    ensures
        alive_at(nodes, c, level, x, y) == tree_alive(unfold(nodes, c, level), level, x, y),
    decreases level,
{
    reveal(crate::cell::unfold);
    if c == void_cell() {
        lemma_void_dead(nodes, level, x, y);
    } else if level > 3 {
        let h = vstd::arithmetic::power2::pow2((level - 2) as nat) as int;
        if x < 0 {
            if y >= 0 {
                lemma_alive_unfold(nodes, nodes[c.nw as int], (level - 1) as nat, x + h, y - h);
            } else {
                lemma_alive_unfold(nodes, nodes[c.sw as int], (level - 1) as nat, x + h, y + h);
            }
        } else {
            if y >= 0 {
                lemma_alive_unfold(nodes, nodes[c.ne as int], (level - 1) as nat, x - h, y - h);
            } else {
                lemma_alive_unfold(nodes, nodes[c.se as int], (level - 1) as nat, x - h, y + h);
            }
        }
    }
}

/// The result of a level-4 cell as a function of the arena, the rule table
/// and the cell: nine pseudo-leaves are spliced from the four leaf children,
/// each yields its level-2 result, the nine results assemble into four
/// leaves, and their results form the quadrants of the returned leaf.
pub open spec fn spec_res16(nodes: Seq<Cell>, table: Seq<u16>, c: Cell) -> Cell {
    let nwc = nodes[c.nw as int];
    let nec = nodes[c.ne as int];
    let swc = nodes[c.sw as int];
    let sec = nodes[c.se as int];
    let n00 = spec_leaf_res_of(nwc, table);
    let n01 = spec_leaf_res_of(spec_h_center8(nwc, nec), table);
    let n02 = spec_leaf_res_of(nec, table);
    let n10 = spec_leaf_res_of(spec_v_center8(nwc, swc), table);
    let n11 = spec_leaf_res_of(spec_center16(nodes, c), table);
    let n12 = spec_leaf_res_of(spec_v_center8(nec, sec), table);
    let n20 = spec_leaf_res_of(swc, table);
    let n21 = spec_leaf_res_of(spec_h_center8(swc, sec), table);
    let n22 = spec_leaf_res_of(sec, table);
    let tl = spec_leaf_res_of(leaf_cell(n00, n01, n10, n11), table);
    let tr = spec_leaf_res_of(leaf_cell(n01, n02, n11, n12), table);
    let bl = spec_leaf_res_of(leaf_cell(n10, n11, n20, n21), table);
    let br = spec_leaf_res_of(leaf_cell(n11, n12, n21, n22), table);
    leaf_cell(tl, tr, bl, br)
}

/// One unfolding of the result recursion at an interior level, spelled
/// out over the four subtrees.
proof fn lemma_spec_assembly(
    table: Seq<u16>,
    t0: NodeTree,
    tnw: NodeTree,
    tne: NodeTree,
    tsw: NodeTree,
    tse: NodeTree,
    level: nat,
)
    requires
        level >= 5,
        !t_void_entry(t0),
        t0 == NodeTree::Node(Box::new(tnw), Box::new(tne), Box::new(tsw), Box::new(tse)),
    ensures
        tree_result(table, t0, level) == ({
            let sub = (level - 1) as nat;
            let q00 = tree_result(table, tnw, sub);
            let q01 = tree_result(table, t_hc(tnw, tne), sub);
            let q02 = tree_result(table, tne, sub);
            let q10 = tree_result(table, t_vc(tnw, tsw), sub);
            let q11 = tree_result(table, t_center(t0), sub);
            let q12 = tree_result(table, t_vc(tne, tse), sub);
            let q20 = tree_result(table, tsw, sub);
            let q21 = tree_result(table, t_hc(tsw, tse), sub);
            let q22 = tree_result(table, tse, sub);
            let rq0 = tree_result(
                table,
                NodeTree::Node(Box::new(q00), Box::new(q01), Box::new(q10), Box::new(q11)),
                sub,
            );
            let rq1 = tree_result(
                table,
                NodeTree::Node(Box::new(q01), Box::new(q02), Box::new(q11), Box::new(q12)),
                sub,
            );
            let rq2 = tree_result(
                table,
                NodeTree::Node(Box::new(q10), Box::new(q11), Box::new(q20), Box::new(q21)),
                sub,
            );
            let rq3 = tree_result(
                table,
                NodeTree::Node(Box::new(q11), Box::new(q12), Box::new(q21), Box::new(q22)),
                sub,
            );
            if rq0 == NodeTree::Void && rq1 == NodeTree::Void && rq2 == NodeTree::Void && rq3
                == NodeTree::Void {
                NodeTree::Void
            } else {
                NodeTree::Node(Box::new(rq0), Box::new(rq1), Box::new(rq2), Box::new(rq3))
            }
        }),
{
    reveal(crate::cell::tree_result);
}

/// The result of a spliced horizontal-center cell is the result of the
/// tree-level splice: the two trees differ only when the splice is the
/// void cell, and then both results are void.
pub proof fn lemma_splice_h_result(
    nodes: Seq<Cell>,
    table: Seq<u16>,
    a: Cell,
    b: Cell,
    r: Cell,
    sub: nat,
)
    requires
        sub >= 4,
        nodes.len() >= 1,
        nodes[0] == void_cell(),
        wf_at(nodes, a, sub),
        wf_at(nodes, b, sub),
        r == (Cell { nw: a.ne, ne: b.nw, sw: a.se, se: b.sw }),
    ensures
        tree_result(table, unfold(nodes, r, sub), sub) == tree_result(
            table,
            t_hc(unfold(nodes, a, sub), unfold(nodes, b, sub)),
            sub,
        ),
{
    reveal(crate::cell::unfold);
    reveal(crate::cell::tree_result);
    let ta = unfold(nodes, a, sub);
    let tb = unfold(nodes, b, sub);
    lemma_sub_unfold(nodes, a, sub);
    lemma_sub_unfold(nodes, b, sub);
    if r == void_cell() {
        assert(t_void_entry(t_hc(ta, tb)));
    } else {
        assert(unfold(nodes, r, sub) == t_hc(ta, tb));
    }
}

/// As `lemma_splice_h_result`, for the vertical-center splice.
pub proof fn lemma_splice_v_result(
    nodes: Seq<Cell>,
    table: Seq<u16>,
    a: Cell,
    b: Cell,
    r: Cell,
    sub: nat,
)
    requires
        sub >= 4,
        nodes.len() >= 1,
        nodes[0] == void_cell(),
        wf_at(nodes, a, sub),
        wf_at(nodes, b, sub),
        r == (Cell { nw: a.sw, ne: a.se, sw: b.nw, se: b.ne }),
    ensures
        tree_result(table, unfold(nodes, r, sub), sub) == tree_result(
            table,
            t_vc(unfold(nodes, a, sub), unfold(nodes, b, sub)),
            sub,
        ),
{
    reveal(crate::cell::unfold);
    reveal(crate::cell::tree_result);
    let ta = unfold(nodes, a, sub);
    let tb = unfold(nodes, b, sub);
    lemma_sub_unfold(nodes, a, sub);
    lemma_sub_unfold(nodes, b, sub);
    if r == void_cell() {
        assert(t_void_entry(t_vc(ta, tb)));
    } else {
        assert(unfold(nodes, r, sub) == t_vc(ta, tb));
    }
}

/// As `lemma_splice_h_result`, for the center splice of four siblings.
pub proof fn lemma_splice_c_result(
    nodes: Seq<Cell>,
    table: Seq<u16>,
    a: Cell,
    b: Cell,
    c: Cell,
    d: Cell,
    t: NodeTree,
    r: Cell,
    sub: nat,
)
    requires
        sub >= 4,
        nodes.len() >= 1,
        nodes[0] == void_cell(),
        wf_at(nodes, a, sub),
        wf_at(nodes, b, sub),
        wf_at(nodes, c, sub),
        wf_at(nodes, d, sub),
        t == NodeTree::Node(
            Box::new(unfold(nodes, a, sub)),
            Box::new(unfold(nodes, b, sub)),
            Box::new(unfold(nodes, c, sub)),
            Box::new(unfold(nodes, d, sub)),
        ),
        r == (Cell { nw: a.se, ne: b.sw, sw: c.ne, se: d.nw }),
    ensures
        tree_result(table, unfold(nodes, r, sub), sub) == tree_result(table, t_center(t), sub),
{
    reveal(crate::cell::unfold);
    reveal(crate::cell::tree_result);
    lemma_sub_unfold(nodes, a, sub);
    lemma_sub_unfold(nodes, b, sub);
    lemma_sub_unfold(nodes, c, sub);
    lemma_sub_unfold(nodes, d, sub);
    if r == void_cell() {
        assert(t_void_entry(t_center(t)));
    } else {
        assert(unfold(nodes, r, sub) == t_center(t));
    }
}

/// A cell assembled from four result indices has the result of the tree
/// assembled from their trees: both are void exactly when all four are.
pub proof fn lemma_assembled_result(
    nodes: Seq<Cell>,
    table: Seq<u16>,
    i0: usize,
    i1: usize,
    i2: usize,
    i3: usize,
    u0: NodeTree,
    u1: NodeTree,
    u2: NodeTree,
    u3: NodeTree,
    r: Cell,
    sub: nat,
)
    requires
        sub >= 4,
        nodes.len() >= 1,
        nodes[0] == void_cell(),
        forall|i: int, j: int| 0 <= i < j < nodes.len() ==> nodes[i] != nodes[j],
        i0 < nodes.len() && i1 < nodes.len() && i2 < nodes.len() && i3 < nodes.len(),
        u0 == unfold(nodes, nodes[i0 as int], (sub - 1) as nat),
        u1 == unfold(nodes, nodes[i1 as int], (sub - 1) as nat),
        u2 == unfold(nodes, nodes[i2 as int], (sub - 1) as nat),
        u3 == unfold(nodes, nodes[i3 as int], (sub - 1) as nat),
        r == (Cell { nw: i0 as usize, ne: i1 as usize, sw: i2 as usize, se: i3 as usize }),
    ensures
        tree_result(table, unfold(nodes, r, sub), sub) == tree_result(
            table,
            NodeTree::Node(Box::new(u0), Box::new(u1), Box::new(u2), Box::new(u3)),
            sub,
        ),
{
    reveal(crate::cell::unfold);
    reveal(crate::cell::tree_result);
    assert forall|i: usize| i < nodes.len() implies ((i == 0) == (unfold(
        nodes,
        nodes[i as int],
        (sub - 1) as nat,
    ) == NodeTree::Void)) by {
        if i != 0 {
            assert(nodes[i as int] != nodes[0]);
        }
    }
    let t = NodeTree::Node(Box::new(u0), Box::new(u1), Box::new(u2), Box::new(u3));
    if r == void_cell() {
        assert(u0 == NodeTree::Void && u1 == NodeTree::Void && u2 == NodeTree::Void && u3
            == NodeTree::Void);
        assert(t_void_entry(t));
    } else {
        assert(unfold(nodes, r, sub) == t);
        assert(!(u0 == NodeTree::Void && u1 == NodeTree::Void && u2 == NodeTree::Void && u3
            == NodeTree::Void));
    }
}

/// Each subtree accessor of a non-void cell's unfolding reads the
/// unfolding of the matching child index, and the void cell's accessors
/// stay void.
proof fn lemma_sub_unfold(nodes: Seq<Cell>, c: Cell, sub: nat)
    requires
        sub >= 4,
        nodes.len() >= 1,
        nodes[0] == void_cell(),
        wf_at(nodes, c, sub),
    ensures
        unfold(nodes, c, sub).nw() == unfold(
            nodes,
            nodes[(if c == void_cell() { 0 } else { c.nw as int })],
            (sub - 1) as nat,
        ),
        unfold(nodes, c, sub).ne() == unfold(
            nodes,
            nodes[(if c == void_cell() { 0 } else { c.ne as int })],
            (sub - 1) as nat,
        ),
        unfold(nodes, c, sub).sw() == unfold(
            nodes,
            nodes[(if c == void_cell() { 0 } else { c.sw as int })],
            (sub - 1) as nat,
        ),
        unfold(nodes, c, sub).se() == unfold(
            nodes,
            nodes[(if c == void_cell() { 0 } else { c.se as int })],
            (sub - 1) as nat,
        ),
{
    reveal(crate::cell::unfold);
}

/// The arena-level result of a level-4 cell unfolds to the tree-level
/// result of its unfolding.
#[verifier::rlimit(100)]
#[verifier::spinoff_prover]
pub proof fn lemma_res16_tree(nodes: Seq<Cell>, nodes2: Seq<Cell>, table: Seq<u16>, c: Cell)
    requires
        wf_at(nodes, c, 4),
        c != void_cell(),
        nodes.len() >= 1,
        nodes[0] == void_cell(),
        forall|i: int, j: int| 0 <= i < j < nodes.len() ==> nodes[i] != nodes[j],
    ensures
        unfold(nodes2, spec_res16(nodes, table, c), 3) == tree_res16(table, unfold(nodes, c, 4)),
        !t_void_entry(unfold(nodes, c, 4)),
{
    reveal(crate::cell::unfold);
    let t = unfold(nodes, c, 4);
    assert(t.nw() == unfold(nodes, nodes[c.nw as int], 3));
    assert(t.ne() == unfold(nodes, nodes[c.ne as int], 3));
    assert(t.sw() == unfold(nodes, nodes[c.sw as int], 3));
    assert(t.se() == unfold(nodes, nodes[c.se as int], 3));
    // the cell is not the void cell, so some child index is nonzero, and
    // only slot 0 holds the void cell, so that child's tree is a leaf
    assert(!t_void_entry(t)) by {
        if c.nw != 0 {
            assert(nodes[c.nw as int] != nodes[0]);
            assert(unfold(nodes, nodes[c.nw as int], 3) != NodeTree::Void);
        } else if c.ne != 0 {
            assert(nodes[c.ne as int] != nodes[0]);
            assert(unfold(nodes, nodes[c.ne as int], 3) != NodeTree::Void);
        } else if c.sw != 0 {
            assert(nodes[c.sw as int] != nodes[0]);
            assert(unfold(nodes, nodes[c.sw as int], 3) != NodeTree::Void);
        } else {
            assert(c.se != 0);
            assert(nodes[c.se as int] != nodes[0]);
            assert(unfold(nodes, nodes[c.se as int], 3) != NodeTree::Void);
        }
    }
    // the children unfold to leaves carrying exactly the quadrant bitmaps
    // that spec_res16 reads
    assert(t.nw().quads() == (
        quad_nw(nodes[c.nw as int]),
        quad_ne(nodes[c.nw as int]),
        quad_sw(nodes[c.nw as int]),
        quad_se(nodes[c.nw as int]),
    ));
    assert(t.ne().quads() == (
        quad_nw(nodes[c.ne as int]),
        quad_ne(nodes[c.ne as int]),
        quad_sw(nodes[c.ne as int]),
        quad_se(nodes[c.ne as int]),
    ));
    assert(t.sw().quads() == (
        quad_nw(nodes[c.sw as int]),
        quad_ne(nodes[c.sw as int]),
        quad_sw(nodes[c.sw as int]),
        quad_se(nodes[c.sw as int]),
    ));
    assert(t.se().quads() == (
        quad_nw(nodes[c.se as int]),
        quad_ne(nodes[c.se as int]),
        quad_sw(nodes[c.se as int]),
        quad_se(nodes[c.se as int]),
    ));
    // spec_res16 returns a tagged leaf, so its unfolding is the leaf of
    // its quadrants under any arena
    let r = spec_res16(nodes, table, c);
    assert(r.wf_leaf() && r != void_cell());
    assert(unfold(nodes2, r, 3) == NodeTree::Leaf(quad_nw(r), quad_ne(r), quad_sw(r), quad_se(r)));
}

impl Cell {
    /// Compute the result of a level-4 cell: the level-3 leaf it becomes
    /// after four generations, per `spec_res16`.
    pub fn compute_node_res16(&self, next: &Vec<u16>, buf: &CellBuf) -> (r: Cell)
        requires
            wf_at(buf@, *self, 4),
            *self != void_cell(),
            next@.len() == 0x10000,
        ensures
            r == spec_res16(buf@, next@, *self),
            r.wf_leaf(),
    {
        // the four leaf-level children
        let nw = buf.get(self.nw);
        let ne = buf.get(self.ne);
        let sw = buf.get(self.sw);
        let se = buf.get(self.se);
        proof {
            assert(wf_at(buf@, nw, 3) && wf_at(buf@, ne, 3) && wf_at(buf@, sw, 3) && wf_at(
                buf@,
                se,
                3,
            ));
        }

        // cardinal pseudo-leaves and the center leaf
        let n = h_center8(nw, ne);
        let s = h_center8(sw, se);
        let e = v_center8(ne, se);
        let w = v_center8(nw, sw);
        let c = center16(*self, buf);

        // nine level-2 results
        let n00 = nw.compute_leaf_res(next);
        let n01 = n.compute_leaf_res(next);
        let n02 = ne.compute_leaf_res(next);
        let n10 = w.compute_leaf_res(next);
        let n11 = c.compute_leaf_res(next);
        let n12 = e.compute_leaf_res(next);
        let n20 = sw.compute_leaf_res(next);
        let n21 = s.compute_leaf_res(next);
        let n22 = se.compute_leaf_res(next);

        // n00 n01 n02
        // n10 n11 n12
        // n20 n21 n22
        let tl = Cell::leaf(n00, n01, n10, n11);
        let tr = Cell::leaf(n01, n02, n11, n12);
        let bl = Cell::leaf(n10, n11, n20, n21);
        let br = Cell::leaf(n11, n12, n21, n22);

        let tl_res = tl.compute_leaf_res(next);
        let tr_res = tr.compute_leaf_res(next);
        let bl_res = bl.compute_leaf_res(next);
        let br_res = br.compute_leaf_res(next);

        Cell::leaf(tl_res, tr_res, bl_res, br_res)
    }
}

impl Cell {
    /// For a cell of level `k >= 4`, compute and intern its memoized result:
    /// the level-`k-1` cell reached after `2^(k-2)` generations. `self` must
    /// be the interned cell at `id`. The void index short-circuits to
    /// itself: the empty square stays empty at every level.
    pub fn next(&self, next: &Vec<u16>, buf: &mut CellBuf, id: usize, Ghost(level): Ghost<nat>) -> (r:
        Result<usize, CapacityError>)
        requires
            old(buf).inv(),
            id < old(buf)@.len(),
            *self == old(buf)@[id as int],
            level >= 4,
            wf_at(old(buf)@, old(buf)@[id as int], level),
            next@.len() == 0x10000,
            next@ == old(buf).spec_table(),
        ensures
            final(buf).inv(),
            extends(old(buf)@, final(buf)@),
            final(buf).spec_table() == old(buf).spec_table(),
            match r {
                Ok(rid) => rid < final(buf)@.len() && wf_at(
                    final(buf)@,
                    final(buf)@[rid as int],
                    (level - 1) as nat,
                ) && unfold(final(buf)@, final(buf)@[rid as int], (level - 1) as nat)
                    == tree_result(next@, unfold(old(buf)@, old(buf)@[id as int], level), level),
                Err(_) => final(buf)@.len() + 4 > ARENA_CAP,
            },
            id == 0 ==> r == Result::<usize, CapacityError>::Ok(0usize),
    {
        result_id(next, buf, id, Ghost(level))
    }
}

/// Compute the memoized result of the node at `id`: consult the cache,
/// recurse when it is cold, and record what was computed.
#[verifier::rlimit(100)]
pub fn result_id(next: &Vec<u16>, buf: &mut CellBuf, id: usize, Ghost(level): Ghost<nat>) -> (r:
    Result<usize, CapacityError>)
    requires
        old(buf).inv(),
        id < old(buf)@.len(),
        level >= 4,
        wf_at(old(buf)@, old(buf)@[id as int], level),
        next@.len() == 0x10000,
        next@ == old(buf).spec_table(),
    ensures
        final(buf).inv(),
        extends(old(buf)@, final(buf)@),
        final(buf).spec_table() == old(buf).spec_table(),
        match r {
            Ok(rid) => rid < final(buf)@.len() && wf_at(
                final(buf)@,
                final(buf)@[rid as int],
                (level - 1) as nat,
            ) && unfold(final(buf)@, final(buf)@[rid as int], (level - 1) as nat) == tree_result(
                next@,
                unfold(old(buf)@, old(buf)@[id as int], level),
                level,
            ),
            Err(_) => final(buf)@.len() + 4 > ARENA_CAP,
        },
        id == 0 ==> r == Result::<usize, CapacityError>::Ok(0usize),
    decreases level, 1nat,
{
    if id == 0 {
        proof {
            reveal(crate::cell::unfold);
            reveal(crate::cell::tree_result);
            lemma_void_wf(buf@, (level - 1) as nat);
            assert(buf@[0] == void_cell());
            assert(unfold(buf@, buf@[0], (level - 1) as nat) == NodeTree::Void);
            assert(t_void_entry(unfold(buf@, buf@[0], level)));
        }
        return Ok(0);
    }
    proof {
        assert(buf@[id as int] != void_cell()) by {
            assert(buf@[0] == void_cell());
        }
    }
    if let Some(rid) = buf.get_result(id) {
        return Ok(rid);
    }
    let cell = buf.get(id);
    let ghost n0 = buf@;
    let rid: usize;
    if cell.is_16(buf) {
        proof {
            assert(level == 4) by {
                if level > 4 {
                    assert(wf_at(buf@, buf@[cell.nw as int], (level - 1) as nat));
                    assert(wf_at(buf@, buf@[cell.ne as int], (level - 1) as nat));
                    assert(wf_at(buf@, buf@[cell.sw as int], (level - 1) as nat));
                    assert(wf_at(buf@, buf@[cell.se as int], (level - 1) as nat));
                }
            }
        }
        let rcell = cell.compute_node_res16(next, buf);
        if buf.node_count() >= ARENA_CAP {
            return Err(CapacityError);
        }
        rid = buf.insert(rcell);
        proof {
            lemma_wf_mono(n0, buf@, n0[id as int], level);
            assert(wf_at(buf@, buf@[rid as int], 3));
            lemma_res16_tree(n0, buf@, next@, cell);
            assert(tree_result(next@, unfold(n0, cell, 4), 4) == tree_res16(
                next@,
                unfold(n0, cell, 4),
            )) by {
                reveal(crate::cell::tree_result);
            }
            assert(unfold(buf@, buf@[rid as int], 3) == tree_res16(next@, unfold(n0, cell, 4)));
        }
    } else {
        proof {
            assert(level >= 5) by {
                if level == 4 {
                    assert(wf_at(buf@, buf@[cell.nw as int], 3));
                    assert(wf_at(buf@, buf@[cell.ne as int], 3));
                    assert(wf_at(buf@, buf@[cell.sw as int], 3));
                    assert(wf_at(buf@, buf@[cell.se as int], 3));
                    if cell.nw != 0 {
                        assert(buf@[cell.nw as int] != void_cell());
                    } else if cell.ne != 0 {
                        assert(buf@[cell.ne as int] != void_cell());
                    } else if cell.sw != 0 {
                        assert(buf@[cell.sw as int] != void_cell());
                    } else {
                        assert(cell.se != 0);
                        assert(buf@[cell.se as int] != void_cell());
                    }
                }
            }
        }
        let rcell = match cell.compute_node_res(next, buf, Ghost(level)) {
            Ok(c) => c,
            Err(e) => {
                return Err(e);
            },
        };
        if buf.node_count() >= ARENA_CAP {
            return Err(CapacityError);
        }
        let ghost n1 = buf@;
        rid = buf.insert(rcell);
        proof {
            lemma_wf_mono(n0, buf@, n0[id as int], level);
            lemma_wf_mono(n1, buf@, rcell, (level - 1) as nat);
            assert(wf_at(buf@, buf@[rid as int], (level - 1) as nat));
            lemma_unfold_mono(n1, buf@, rcell, (level - 1) as nat);
            assert(unfold(buf@, buf@[rid as int], (level - 1) as nat) == tree_result(
                next@,
                unfold(n0, cell, level),
                level,
            ));
        }
    }
    proof {
        assert(buf@[id as int] == n0[id as int]);
        lemma_unfold_mono(n0, buf@, n0[id as int], level);
    }
    buf.set_result(id, rid, Ghost(level));
    Ok(rid)
}

impl Cell {
    /// Compute the result of a cell of level `k >= 5`: intern the nine
    /// centered pseudo-nodes spliced from the children, take each of their
    /// results, intern the four overlapping assemblies of those results, and
    /// combine the assemblies' results into the returned cell.
    #[verifier::rlimit(100)]
    #[verifier::spinoff_prover]
    pub fn compute_node_res(&self, next: &Vec<u16>, buf: &mut CellBuf, Ghost(level): Ghost<nat>) -> (r:
        Result<Cell, CapacityError>)
        requires
            old(buf).inv(),
            level >= 5,
            wf_at(old(buf)@, *self, level),
            *self != void_cell(),
            next@.len() == 0x10000,
            next@ == old(buf).spec_table(),
        ensures
            final(buf).inv(),
            extends(old(buf)@, final(buf)@),
            final(buf).spec_table() == old(buf).spec_table(),
            match r {
                Ok(c) => wf_at(final(buf)@, c, (level - 1) as nat) && unfold(
                    final(buf)@,
                    c,
                    (level - 1) as nat,
                ) == tree_result(next@, unfold(old(buf)@, *self, level), level),
                Err(_) => final(buf)@.len() + 4 > ARENA_CAP,
            },
        decreases level, 0nat,
    {
        let ghost n0 = buf@;
        let ghost sub = (level - 1) as nat;

        // the children, each an interior cell one level down
        let nw = buf.get(self.nw);
        let ne = buf.get(self.ne);
        let sw = buf.get(self.sw);
        let se = buf.get(self.se);

        // cardinal pseudo-cells and the center cell, spliced from nephews
        let n = h_center(nw, ne);
        let s = h_center(sw, se);
        let e = v_center(ne, se);
        let w = v_center(nw, sw);
        let c = center(*self, buf);
        let ghost t0 = unfold(n0, *self, level);
        let ghost tnw = unfold(n0, nw, sub);
        let ghost tne = unfold(n0, ne, sub);
        let ghost tsw = unfold(n0, sw, sub);
        let ghost tse = unfold(n0, se, sub);
        proof {
            assert(wf_at(buf@, nw, sub) && wf_at(buf@, ne, sub) && wf_at(buf@, sw, sub) && wf_at(
                buf@,
                se,
                sub,
            ));
            lemma_pseudo_wf(buf@, nw, ne, sw, se, n, s, e, w, c, sub);
            assert(t0 == NodeTree::Node(
                Box::new(tnw),
                Box::new(tne),
                Box::new(tsw),
                Box::new(tse),
            )) by {
                reveal(crate::cell::unfold);
            }
            lemma_nonvoid_entry(n0, *self, level);
        }

        // results of the nine level-(k-1) squares, each pinned to the
        // tree-level recursion
        let ghost subsub = (sub - 1) as nat;
        let ghost q00 = tree_result(next@, tnw, sub);
        let ghost q01 = tree_result(next@, t_hc(tnw, tne), sub);
        let ghost q02 = tree_result(next@, tne, sub);
        let ghost q10 = tree_result(next@, t_vc(tnw, tsw), sub);
        let ghost q11 = tree_result(next@, t_center(t0), sub);
        let ghost q12 = tree_result(next@, t_vc(tne, tse), sub);
        let ghost q20 = tree_result(next@, tsw, sub);
        let ghost q21 = tree_result(next@, t_hc(tsw, tse), sub);
        let ghost q22 = tree_result(next@, tse, sub);
        let n00 = result_id(next, buf, self.nw, Ghost(sub))?;
        let ghost s1 = buf@;
        proof {
            lemma_carry(n0, s1, *self, nw, ne, sw, se, n, s, e, w, c, level);
            assert(unfold(s1, s1[n00 as int], subsub) == q00);
        }
        let n01 = pseudo_result(next, buf, n, Ghost(sub))?;
        let ghost s2 = buf@;
        proof {
            lemma_carry(n0, s2, *self, nw, ne, sw, se, n, s, e, w, c, level);
            lemma_res_carry(s1, s2, n00, subsub);
            lemma_splice_h_result(s1, next@, nw, ne, n, sub);
            assert(unfold(s2, s2[n01 as int], subsub) == q01);
        }
        let n02 = result_id(next, buf, self.ne, Ghost(sub))?;
        let ghost s3 = buf@;
        proof {
            lemma_carry(n0, s3, *self, nw, ne, sw, se, n, s, e, w, c, level);
            lemma_res_carry(s2, s3, n00, subsub);
            lemma_res_carry(s2, s3, n01, subsub);
            assert(unfold(s3, s3[n02 as int], subsub) == q02);
        }
        let n10 = pseudo_result(next, buf, w, Ghost(sub))?;
        let ghost s4 = buf@;
        proof {
            lemma_carry(n0, s4, *self, nw, ne, sw, se, n, s, e, w, c, level);
            lemma_res_carry(s3, s4, n00, subsub);
            lemma_res_carry(s3, s4, n01, subsub);
            lemma_res_carry(s3, s4, n02, subsub);
            lemma_splice_v_result(s3, next@, nw, sw, w, sub);
            assert(unfold(s4, s4[n10 as int], subsub) == q10);
        }
        let n11 = pseudo_result(next, buf, c, Ghost(sub))?;
        let ghost s5 = buf@;
        proof {
            lemma_carry(n0, s5, *self, nw, ne, sw, se, n, s, e, w, c, level);
            lemma_res_carry(s4, s5, n00, subsub);
            lemma_res_carry(s4, s5, n01, subsub);
            lemma_res_carry(s4, s5, n02, subsub);
            lemma_res_carry(s4, s5, n10, subsub);
            lemma_splice_c_result(s4, next@, nw, ne, sw, se, t0, c, sub);
            assert(unfold(s5, s5[n11 as int], subsub) == q11);
        }
        let n12 = pseudo_result(next, buf, e, Ghost(sub))?;
        let ghost s6 = buf@;
        proof {
            lemma_carry(n0, s6, *self, nw, ne, sw, se, n, s, e, w, c, level);
            lemma_res_carry(s5, s6, n00, subsub);
            lemma_res_carry(s5, s6, n01, subsub);
            lemma_res_carry(s5, s6, n02, subsub);
            lemma_res_carry(s5, s6, n10, subsub);
            lemma_res_carry(s5, s6, n11, subsub);
            lemma_splice_v_result(s5, next@, ne, se, e, sub);
            assert(unfold(s6, s6[n12 as int], subsub) == q12);
        }
        let n20 = result_id(next, buf, self.sw, Ghost(sub))?;
        let ghost s7 = buf@;
        proof {
            lemma_carry(n0, s7, *self, nw, ne, sw, se, n, s, e, w, c, level);
            lemma_res_carry(s6, s7, n00, subsub);
            lemma_res_carry(s6, s7, n01, subsub);
            lemma_res_carry(s6, s7, n02, subsub);
            lemma_res_carry(s6, s7, n10, subsub);
            lemma_res_carry(s6, s7, n11, subsub);
            lemma_res_carry(s6, s7, n12, subsub);
            assert(unfold(s7, s7[n20 as int], subsub) == q20);
        }
        let n21 = pseudo_result(next, buf, s, Ghost(sub))?;
        let ghost s8 = buf@;
        proof {
            lemma_carry(n0, s8, *self, nw, ne, sw, se, n, s, e, w, c, level);
            lemma_res_carry(s7, s8, n00, subsub);
            lemma_res_carry(s7, s8, n01, subsub);
            lemma_res_carry(s7, s8, n02, subsub);
            lemma_res_carry(s7, s8, n10, subsub);
            lemma_res_carry(s7, s8, n11, subsub);
            lemma_res_carry(s7, s8, n12, subsub);
            lemma_res_carry(s7, s8, n20, subsub);
            lemma_splice_h_result(s7, next@, sw, se, s, sub);
            assert(unfold(s8, s8[n21 as int], subsub) == q21);
        }
        let n22 = result_id(next, buf, self.se, Ghost(sub))?;
        let ghost s9 = buf@;
        proof {
            lemma_carry(n0, s9, *self, nw, ne, sw, se, n, s, e, w, c, level);
            lemma_res_carry(s8, s9, n00, subsub);
            lemma_res_carry(s8, s9, n01, subsub);
            lemma_res_carry(s8, s9, n02, subsub);
            lemma_res_carry(s8, s9, n10, subsub);
            lemma_res_carry(s8, s9, n11, subsub);
            lemma_res_carry(s8, s9, n12, subsub);
            lemma_res_carry(s8, s9, n20, subsub);
            lemma_res_carry(s8, s9, n21, subsub);
            assert(unfold(s9, s9[n22 as int], subsub) == q22);
        }

        // n00 n01 n02
        // n10 n11 n12
        // n20 n21 n22
        let tl = Cell::new(n00, n01, n10, n11);
        let tr = Cell::new(n01, n02, n11, n12);
        let bl = Cell::new(n10, n11, n20, n21);
        let br = Cell::new(n11, n12, n21, n22);
        proof {
            lemma_assembly_wf(s9, tl, sub);
            lemma_assembly_wf(s9, tr, sub);
            lemma_assembly_wf(s9, bl, sub);
            lemma_assembly_wf(s9, br, sub);
        }

        let ghost rq0 = tree_result(
            next@,
            NodeTree::Node(Box::new(q00), Box::new(q01), Box::new(q10), Box::new(q11)),
            sub,
        );
        let ghost rq1 = tree_result(
            next@,
            NodeTree::Node(Box::new(q01), Box::new(q02), Box::new(q11), Box::new(q12)),
            sub,
        );
        let ghost rq2 = tree_result(
            next@,
            NodeTree::Node(Box::new(q10), Box::new(q11), Box::new(q20), Box::new(q21)),
            sub,
        );
        let ghost rq3 = tree_result(
            next@,
            NodeTree::Node(Box::new(q11), Box::new(q12), Box::new(q21), Box::new(q22)),
            sub,
        );
        let rnw = pseudo_result(next, buf, tl, Ghost(sub))?;
        let ghost s10 = buf@;
        proof {
            lemma_wf_mono(s9, s10, tr, sub);
            lemma_wf_mono(s9, s10, bl, sub);
            lemma_wf_mono(s9, s10, br, sub);
            lemma_res_carry(s9, s10, n01, subsub);
            lemma_res_carry(s9, s10, n02, subsub);
            lemma_res_carry(s9, s10, n10, subsub);
            lemma_res_carry(s9, s10, n11, subsub);
            lemma_res_carry(s9, s10, n12, subsub);
            lemma_res_carry(s9, s10, n20, subsub);
            lemma_res_carry(s9, s10, n21, subsub);
            lemma_res_carry(s9, s10, n22, subsub);
            lemma_assembled_result(s9, next@, n00, n01, n10, n11, q00, q01, q10, q11, tl, sub);
            assert(unfold(s10, s10[rnw as int], subsub) == rq0);
        }
        let rne = pseudo_result(next, buf, tr, Ghost(sub))?;
        let ghost s11 = buf@;
        proof {
            lemma_wf_mono(s10, s11, bl, sub);
            lemma_wf_mono(s10, s11, br, sub);
            lemma_res_carry(s10, s11, rnw, subsub);
            lemma_res_carry(s10, s11, n10, subsub);
            lemma_res_carry(s10, s11, n11, subsub);
            lemma_res_carry(s10, s11, n12, subsub);
            lemma_res_carry(s10, s11, n20, subsub);
            lemma_res_carry(s10, s11, n21, subsub);
            lemma_res_carry(s10, s11, n22, subsub);
            lemma_assembled_result(s10, next@, n01, n02, n11, n12, q01, q02, q11, q12, tr, sub);
            assert(unfold(s11, s11[rne as int], subsub) == rq1);
        }
        let rsw = pseudo_result(next, buf, bl, Ghost(sub))?;
        let ghost s12 = buf@;
        proof {
            lemma_wf_mono(s11, s12, br, sub);
            lemma_res_carry(s11, s12, rnw, subsub);
            lemma_res_carry(s11, s12, rne, subsub);
            lemma_res_carry(s11, s12, n11, subsub);
            lemma_res_carry(s11, s12, n12, subsub);
            lemma_res_carry(s11, s12, n21, subsub);
            lemma_res_carry(s11, s12, n22, subsub);
            lemma_assembled_result(s11, next@, n10, n11, n20, n21, q10, q11, q20, q21, bl, sub);
            assert(unfold(s12, s12[rsw as int], subsub) == rq2);
        }
        let rse = pseudo_result(next, buf, br, Ghost(sub))?;
        let ghost s13 = buf@;
        proof {
            lemma_res_carry(s12, s13, rnw, subsub);
            lemma_res_carry(s12, s13, rne, subsub);
            lemma_res_carry(s12, s13, rsw, subsub);
            lemma_assembled_result(s12, next@, n11, n12, n21, n22, q11, q12, q21, q22, br, sub);
            assert(unfold(s13, s13[rse as int], subsub) == rq3);
        }

        let r = Cell { nw: rnw, ne: rne, sw: rsw, se: rse };
        proof {
            lemma_assembly_wf(s13, r, sub);
            // the spec recursion assembles the same four sub-results, and
            // collapses to the void tree exactly when all four are void
            assert forall|i: usize| i < s13.len() implies ((i == 0) == (unfold(
                s13,
                s13[i as int],
                subsub,
            ) == NodeTree::Void)) by {
                reveal(crate::cell::unfold);
                if i != 0 {
                    assert(s13[i as int] != s13[0]);
                }
            }
            lemma_spec_assembly(next@, t0, tnw, tne, tsw, tse, level);
            if r == void_cell() {
                assert(rq0 == NodeTree::Void && rq1 == NodeTree::Void && rq2 == NodeTree::Void
                    && rq3 == NodeTree::Void);
                assert(unfold(s13, r, sub) == NodeTree::Void) by {
                    reveal(crate::cell::unfold);
                }
            } else {
                assert(unfold(s13, r, sub) == NodeTree::Node(
                    Box::new(rq0),
                    Box::new(rq1),
                    Box::new(rq2),
                    Box::new(rq3),
                )) by {
                    reveal(crate::cell::unfold);
                }
                assert(!(rq0 == NodeTree::Void && rq1 == NodeTree::Void && rq2 == NodeTree::Void
                    && rq3 == NodeTree::Void));
            }
        }
        Ok(r)
    }
}

/// Lift the well-formedness and the unfolding of a recorded result across
/// an arena extension.
proof fn lemma_res_carry(prev: Seq<Cell>, cur: Seq<Cell>, id: usize, k: nat)
    requires
        extends(prev, cur),
        id < prev.len(),
        wf_at(prev, prev[id as int], k),
    ensures
        cur[id as int] == prev[id as int],
        wf_at(cur, cur[id as int], k),
        unfold(cur, cur[id as int], k) == unfold(prev, prev[id as int], k),
{
    lemma_wf_mono(prev, cur, prev[id as int], k);
    lemma_unfold_mono(prev, cur, prev[id as int], k);
}

/// A well-formed cell other than the void cell never unfolds to a void
/// entry: some child index is nonzero, and only slot 0 holds the void
/// cell.
pub proof fn lemma_nonvoid_entry(nodes: Seq<Cell>, c: Cell, level: nat)
    requires
        level >= 4,
        nodes.len() >= 1,
        nodes[0] == void_cell(),
        forall|i: int, j: int| 0 <= i < j < nodes.len() ==> nodes[i] != nodes[j],
        wf_at(nodes, c, level),
        c != void_cell(),
    ensures
        unfold(nodes, c, level) != NodeTree::Void,
        !t_void_entry(unfold(nodes, c, level)),
{
    reveal(crate::cell::unfold);
    let t = unfold(nodes, c, level);
    assert(t.nw() == unfold(nodes, nodes[c.nw as int], (level - 1) as nat));
    assert(t.ne() == unfold(nodes, nodes[c.ne as int], (level - 1) as nat));
    assert(t.sw() == unfold(nodes, nodes[c.sw as int], (level - 1) as nat));
    assert(t.se() == unfold(nodes, nodes[c.se as int], (level - 1) as nat));
    if c.nw != 0 {
        assert(nodes[c.nw as int] != nodes[0]);
        assert(unfold(nodes, nodes[c.nw as int], (level - 1) as nat) != NodeTree::Void);
    } else if c.ne != 0 {
        assert(nodes[c.ne as int] != nodes[0]);
        assert(unfold(nodes, nodes[c.ne as int], (level - 1) as nat) != NodeTree::Void);
    } else if c.sw != 0 {
        assert(nodes[c.sw as int] != nodes[0]);
        assert(unfold(nodes, nodes[c.sw as int], (level - 1) as nat) != NodeTree::Void);
    } else {
        assert(c.se != 0);
        assert(nodes[c.se as int] != nodes[0]);
        assert(unfold(nodes, nodes[c.se as int], (level - 1) as nat) != NodeTree::Void);
    }
}

/// A cell assembled from four indices of well-formed cells one level down
/// is itself well-formed.
proof fn lemma_assembly_wf(nodes: Seq<Cell>, r: Cell, sub: nat)
    requires
        sub >= 4,
        nodes.len() <= LEAF_MASK,
        r.nw < nodes.len(),
        r.ne < nodes.len(),
        r.sw < nodes.len(),
        r.se < nodes.len(),
        wf_at(nodes, nodes[r.nw as int], (sub - 1) as nat),
        wf_at(nodes, nodes[r.ne as int], (sub - 1) as nat),
        wf_at(nodes, nodes[r.sw as int], (sub - 1) as nat),
        wf_at(nodes, nodes[r.se as int], (sub - 1) as nat),
    ensures
        wf_at(nodes, r, sub),
{
    if r != void_cell() {
        assert(!r.spec_is_leaf()) by {
            assert(r.nw < nodes.len() <= LEAF_MASK);
        }
    }
}

/// Intern a pseudo-cell and compute its memoized result.
fn pseudo_result(next: &Vec<u16>, buf: &mut CellBuf, cell: Cell, Ghost(level): Ghost<nat>) -> (r:
    Result<usize, CapacityError>)
    requires
        old(buf).inv(),
        level >= 4,
        wf_at(old(buf)@, cell, level),
        next@.len() == 0x10000,
        next@ == old(buf).spec_table(),
    ensures
        final(buf).inv(),
        extends(old(buf)@, final(buf)@),
        final(buf).spec_table() == old(buf).spec_table(),
        match r {
            Ok(rid) => rid < final(buf)@.len() && wf_at(
                final(buf)@,
                final(buf)@[rid as int],
                (level - 1) as nat,
            ) && unfold(final(buf)@, final(buf)@[rid as int], (level - 1) as nat) == tree_result(
                next@,
                unfold(old(buf)@, cell, level),
                level,
            ),
            Err(_) => final(buf)@.len() + 4 > ARENA_CAP,
        },
    decreases level, 2nat,
{
    if buf.node_count() >= ARENA_CAP {
        return Err(CapacityError);
    }
    let ghost n0 = buf@;
    let id = buf.insert(cell);
    proof {
        lemma_wf_mono(n0, buf@, cell, level);
        lemma_unfold_mono(n0, buf@, cell, level);
        assert(unfold(buf@, buf@[id as int], level) == unfold(n0, cell, level));
    }
    result_id(next, buf, id, Ghost(level))
}

/// The spliced pseudo-cells of a level-`sub+1` node are well-formed at level
/// `sub`: their children are the nephews the splice names.
proof fn lemma_pseudo_wf(
    nodes: Seq<Cell>,
    nw: Cell,
    ne: Cell,
    sw: Cell,
    se: Cell,
    n: Cell,
    s: Cell,
    e: Cell,
    w: Cell,
    c: Cell,
    sub: nat,
)
    requires
        sub >= 4,
        nodes.len() >= 1,
        nodes.len() <= LEAF_MASK,
        nodes[0] == void_cell(),
        wf_at(nodes, nw, sub),
        wf_at(nodes, ne, sub),
        wf_at(nodes, sw, sub),
        wf_at(nodes, se, sub),
        n == (Cell { nw: nw.ne, ne: ne.nw, sw: nw.se, se: ne.sw }),
        s == (Cell { nw: sw.ne, ne: se.nw, sw: sw.se, se: se.sw }),
        e == (Cell { nw: ne.sw, ne: ne.se, sw: se.nw, se: se.ne }),
        w == (Cell { nw: nw.sw, ne: nw.se, sw: sw.nw, se: sw.ne }),
        c == (Cell { nw: nw.se, ne: ne.sw, sw: sw.ne, se: se.nw }),
    ensures
        wf_at(nodes, n, sub),
        wf_at(nodes, s, sub),
        wf_at(nodes, e, sub),
        wf_at(nodes, w, sub),
        wf_at(nodes, c, sub),
{
    lemma_void_wf(nodes, (sub - 1) as nat);
    lemma_splice_wf(nodes, nw, ne, n, sub);
    lemma_splice_wf(nodes, sw, se, s, sub);
    lemma_splice_wf2(nodes, ne, se, e, sub);
    lemma_splice_wf2(nodes, nw, sw, w, sub);
    lemma_center_wf(nodes, nw, ne, sw, se, c, sub);
}

/// A cell whose four children are nephews drawn from two horizontally
/// adjacent well-formed cells is well-formed at the same level.
proof fn lemma_splice_wf(nodes: Seq<Cell>, a: Cell, b: Cell, r: Cell, sub: nat)
    requires
        sub >= 4,
        nodes.len() >= 1,
        nodes.len() <= LEAF_MASK,
        nodes[0] == void_cell(),
        wf_at(nodes, a, sub),
        wf_at(nodes, b, sub),
        r == (Cell { nw: a.ne, ne: b.nw, sw: a.se, se: b.sw }),
    ensures
        wf_at(nodes, r, sub),
{
    lemma_void_wf(nodes, (sub - 1) as nat);
    if r != void_cell() {
        assert(wf_at(nodes, nodes[r.nw as int], (sub - 1) as nat)) by {
            if a == void_cell() {
                assert(r.nw == 0);
            }
        }
        assert(wf_at(nodes, nodes[r.sw as int], (sub - 1) as nat)) by {
            if a == void_cell() {
                assert(r.sw == 0);
            }
        }
        assert(wf_at(nodes, nodes[r.ne as int], (sub - 1) as nat)) by {
            if b == void_cell() {
                assert(r.ne == 0);
            }
        }
        assert(wf_at(nodes, nodes[r.se as int], (sub - 1) as nat)) by {
            if b == void_cell() {
                assert(r.se == 0);
            }
        }
        assert(!r.spec_is_leaf()) by {
            if a == void_cell() {
                assert(r.nw == 0);
            } else {
                assert(!a.spec_is_leaf());
                assert(a.ne < nodes.len() <= LEAF_MASK);
            }
        }
    }
}

/// As `lemma_splice_wf`, for two vertically adjacent cells.
proof fn lemma_splice_wf2(nodes: Seq<Cell>, a: Cell, b: Cell, r: Cell, sub: nat)
    requires
        sub >= 4,
        nodes.len() >= 1,
        nodes.len() <= LEAF_MASK,
        nodes[0] == void_cell(),
        wf_at(nodes, a, sub),
        wf_at(nodes, b, sub),
        r == (Cell { nw: a.sw, ne: a.se, sw: b.nw, se: b.ne }),
    ensures
        wf_at(nodes, r, sub),
{
    lemma_void_wf(nodes, (sub - 1) as nat);
    if r != void_cell() {
        assert(wf_at(nodes, nodes[r.nw as int], (sub - 1) as nat)) by {
            if a == void_cell() {
                assert(r.nw == 0);
            }
        }
        assert(wf_at(nodes, nodes[r.ne as int], (sub - 1) as nat)) by {
            if a == void_cell() {
                assert(r.ne == 0);
            }
        }
        assert(wf_at(nodes, nodes[r.sw as int], (sub - 1) as nat)) by {
            if b == void_cell() {
                assert(r.sw == 0);
            }
        }
        assert(wf_at(nodes, nodes[r.se as int], (sub - 1) as nat)) by {
            if b == void_cell() {
                assert(r.se == 0);
            }
        }
        assert(!r.spec_is_leaf()) by {
            if a == void_cell() {
                assert(r.nw == 0);
            } else {
                assert(a.sw < nodes.len() <= LEAF_MASK);
            }
        }
    }
}

/// The center splice of four well-formed siblings is well-formed at their
/// level.
proof fn lemma_center_wf(
    nodes: Seq<Cell>,
    nw: Cell,
    ne: Cell,
    sw: Cell,
    se: Cell,
    r: Cell,
    sub: nat,
)
    requires
        sub >= 4,
        nodes.len() >= 1,
        nodes.len() <= LEAF_MASK,
        nodes[0] == void_cell(),
        wf_at(nodes, nw, sub),
        wf_at(nodes, ne, sub),
        wf_at(nodes, sw, sub),
        wf_at(nodes, se, sub),
        r == (Cell { nw: nw.se, ne: ne.sw, sw: sw.ne, se: se.nw }),
    ensures
        wf_at(nodes, r, sub),
{
    lemma_void_wf(nodes, (sub - 1) as nat);
    if r != void_cell() {
        assert(wf_at(nodes, nodes[r.nw as int], (sub - 1) as nat)) by {
            if nw == void_cell() {
                assert(r.nw == 0);
            }
        }
        assert(wf_at(nodes, nodes[r.ne as int], (sub - 1) as nat)) by {
            if ne == void_cell() {
                assert(r.ne == 0);
            }
        }
        assert(wf_at(nodes, nodes[r.sw as int], (sub - 1) as nat)) by {
            if sw == void_cell() {
                assert(r.sw == 0);
            }
        }
        assert(wf_at(nodes, nodes[r.se as int], (sub - 1) as nat)) by {
            if se == void_cell() {
                assert(r.se == 0);
            }
        }
        assert(!r.spec_is_leaf()) by {
            if nw == void_cell() {
                assert(r.nw == 0);
            } else {
                assert(nw.se < nodes.len() <= LEAF_MASK);
            }
        }
    }
}

/// Re-establish, over a grown arena, the well-formedness of a node's
/// children and spliced pseudo-cells.
proof fn lemma_carry(
    n0: Seq<Cell>,
    n1: Seq<Cell>,
    parent: Cell,
    nw: Cell,
    ne: Cell,
    sw: Cell,
    se: Cell,
    n: Cell,
    s: Cell,
    e: Cell,
    w: Cell,
    c: Cell,
    level: nat,
)
    requires
        level >= 5,
        n0.len() >= 1,
        n0[0] == void_cell(),
        n1.len() <= LEAF_MASK,
        extends(n0, n1),
        wf_at(n0, parent, level),
        parent != void_cell(),
        nw == n0[parent.nw as int],
        ne == n0[parent.ne as int],
        sw == n0[parent.sw as int],
        se == n0[parent.se as int],
        n == (Cell { nw: nw.ne, ne: ne.nw, sw: nw.se, se: ne.sw }),
        s == (Cell { nw: sw.ne, ne: se.nw, sw: sw.se, se: se.sw }),
        e == (Cell { nw: ne.sw, ne: ne.se, sw: se.nw, se: se.ne }),
        w == (Cell { nw: nw.sw, ne: nw.se, sw: sw.nw, se: sw.ne }),
        c == (Cell { nw: nw.se, ne: ne.sw, sw: sw.ne, se: se.nw }),
    ensures
        wf_at(n1, nw, (level - 1) as nat),
        wf_at(n1, ne, (level - 1) as nat),
        wf_at(n1, sw, (level - 1) as nat),
        wf_at(n1, se, (level - 1) as nat),
        wf_at(n1, n, (level - 1) as nat),
        wf_at(n1, s, (level - 1) as nat),
        wf_at(n1, e, (level - 1) as nat),
        wf_at(n1, w, (level - 1) as nat),
        wf_at(n1, c, (level - 1) as nat),
        n1[parent.nw as int] == nw,
        n1[parent.ne as int] == ne,
        n1[parent.sw as int] == sw,
        n1[parent.se as int] == se,
        unfold(n1, nw, (level - 1) as nat) == unfold(n0, nw, (level - 1) as nat),
        unfold(n1, ne, (level - 1) as nat) == unfold(n0, ne, (level - 1) as nat),
        unfold(n1, sw, (level - 1) as nat) == unfold(n0, sw, (level - 1) as nat),
        unfold(n1, se, (level - 1) as nat) == unfold(n0, se, (level - 1) as nat),
{
    let sub = (level - 1) as nat;
    lemma_wf_mono(n0, n1, nw, sub);
    lemma_wf_mono(n0, n1, ne, sub);
    lemma_wf_mono(n0, n1, sw, sub);
    lemma_wf_mono(n0, n1, se, sub);
    lemma_unfold_mono(n0, n1, nw, sub);
    lemma_unfold_mono(n0, n1, ne, sub);
    lemma_unfold_mono(n0, n1, sw, sub);
    lemma_unfold_mono(n0, n1, se, sub);
    lemma_pseudo_wf(n1, nw, ne, sw, se, n, s, e, w, c, sub);
}

/// Shifting a coordinate by the quadrant width keeps its position within
/// the 4x4 bitmap.
proof fn lemma_mod_shift4(x: int)
    ensures
        (x + 4) % 4 == x % 4,
        (x - 4) % 4 == x % 4,
{
    vstd::arithmetic::div_mod::lemma_mod_add_multiples_vanish(x, 4);
    vstd::arithmetic::div_mod::lemma_mod_sub_multiples_vanish(x, 4);
}

} // verus!
