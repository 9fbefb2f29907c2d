//! The world facade: the current root, the compiled rule table, the node
//! arena and the current tree depth, with the coordinate bit setter, root
//! growth, and the generation step.

use vstd::prelude::*;

verus! {

use crate::WorldOffset;
use vstd::string::StringSliceAdditionalSpecFns;
use crate::cell::Cell;
use crate::cell::alive_at;
use crate::cell::extends;
use crate::cell::in_span;
use crate::cell::leaf_cell;
use crate::cell::lemma_alive_mono;
use crate::cell::lemma_wf_mono;
use crate::cell::quad_nw;
use crate::cell::quad_ne;
use crate::cell::quad_sw;
use crate::cell::quad_se;
use crate::cell::leaf_alive;
use crate::cell::result_id;
use crate::cell::u16_bit;
use crate::cell::void_cell;
use crate::cell::wf_at;
use crate::cellbuf::ARENA_CAP;
use crate::cellbuf::CapacityError;
use crate::cellbuf::CellBuf;
use crate::rule_set::RuleError;
use crate::rule_set::RuleSet;
use crate::rule_set::spec_rule_next;
use crate::rule_set::spec_parse_rule;

/// The simulation state: rule table, arena, root and depth.
pub struct World {
    /// The compiled rule table: indexing with a 4x4 configuration yields
    /// its one-generation successor.
    pub rules: Vec<u16>,
    /// The rule the table was compiled from.
    pub rule_set: RuleSet,
    /// Index of the root cell in `buf`.
    pub root: usize,
    /// The hash-consed node arena.
    pub buf: CellBuf,
    /// World depth: the root's level, at least 3; the world side length is
    /// `2^depth` cells, centered on the origin.
    pub depth: u8,
}

impl World {
    /// The world invariant: a consistent arena, a rule table compiled from
    /// `rule_set`, and a well-formed root of level `depth`.
    pub open spec fn wf(&self) -> bool {
        &&& self.buf.inv()
        &&& self.rules@.len() == 0x10000
        &&& (forall|i: int|
            0 <= i < 0x10000 ==> self.rules@[i] == spec_rule_next(
                self.rule_set.spec_births(),
                self.rule_set.spec_survivals(),
                i as u16,
            ))
        &&& self.root < self.buf@.len()
        &&& self.buf.spec_table() == self.rules@
        &&& 3 <= self.depth <= 62
        &&& wf_at(self.buf@, self.buf@[self.root as int], self.depth as nat)
    }

    /// Whether the world cell at `(x, y)` is alive.
    pub open spec fn spec_alive(&self, x: int, y: int) -> bool {
        alive_at(self.buf@, self.buf@[self.root as int], self.depth as nat, x, y)
    }

    /// Create an empty world of depth 3 for the given rule string. The
    /// string is accepted exactly when it parses as `B<digits>/S<digits>`
    /// (case-insensitive, topology suffix allowed) up to its end.
    pub fn new(rule_set: &str) -> (r: Result<Self, RuleError>)
        ensures
            match r {
                Ok(w) => {
                    &&& w.wf()
                    &&& w.depth == 3
                    &&& (forall|x: int, y: int| !w.spec_alive(x, y))
                    &&& (spec_parse_rule(rule_set.spec_bytes().push(0x20)) matches Some(
                        (b, s, _),
                    ) && w.rule_set.spec_births() == b & 0x1FF && w.rule_set.spec_survivals() == s
                        & 0x1FF)
                },
                Err(_) => spec_parse_rule(rule_set.spec_bytes().push(0x20)) is None || (
                spec_parse_rule(rule_set.spec_bytes().push(0x20)) matches Some((_, _, mid))
                    && mid.len() > 0 && mid[0] == 0x3A && crate::rule_set::spec_parse_ext(mid)
                    is None),
            },
    {
        // a rule string that runs to the end of input ends as if at
        // whitespace
        let bytes = rule_set.as_bytes();
        let mut padded: Vec<u8> = Vec::new();
        let mut i: usize = 0;
        while i < bytes.len()
            invariant
                0 <= i <= bytes@.len(),
                padded@ == bytes@.subrange(0, i as int),
            decreases bytes@.len() - i,
        {
            padded.push(bytes[i]);
            proof {
                assert(padded@ =~= bytes@.subrange(0, i + 1));
            }
            i += 1;
        }
        padded.push(0x20);
        proof {
            assert(bytes@.subrange(0, bytes@.len() as int) =~= bytes@);
            assert(padded@ == rule_set.spec_bytes().push(0x20));
        }
        let parsed = crate::rule_set::parse_rule(padded.as_slice());
        let rule_set = match parsed {
            Ok((rs, _)) => rs,
            Err(e) => {
                return Err(e);
            },
        };
        let rules = rule_set.compute_rules();
        let mut buf = CellBuf::new();
        buf.set_rule_table(Ghost(rules@));
        let root = buf.leaf(0, 0, 0, 0);
        let w = World { rules, rule_set, root, buf, depth: 3 };
        proof {
            assert(wf_at(w.buf@, w.buf@[w.root as int], 3)) by {
                assert(w.buf@[w.root as int] == leaf_cell(0, 0, 0, 0));
            }
            crate::cell::lemma_u16_bit_zero();
            assert forall|x: int, y: int| !w.spec_alive(x, y) by {
                assert(w.buf@[w.root as int] == leaf_cell(0, 0, 0, 0));
                assert(quad_nw(leaf_cell(0, 0, 0, 0)) == 0);
            }
        }
        Ok(w)
    }

    /// Whether the cell at `(x, y)` of the current root is alive.
    pub fn is_alive(&self, x: WorldOffset, y: WorldOffset) -> (r: bool)
        requires
            self.wf(),
            in_span(self.depth as nat, x as int, y as int),
        ensures
            r == self.spec_alive(x as int, y as int),
    {
        alive_rec(&self.buf, self.root, x, y, self.depth)
    }

    /// Set the cell at `(x, y)` alive. The coordinates must lie within the
    /// root's span; `grow` first when they do not. Every node rebuilt along
    /// the path is re-interned, so canonicalization is preserved; on a full
    /// arena the world is left unchanged.
    pub fn set(&mut self, x: WorldOffset, y: WorldOffset) -> (r: Result<(), CapacityError>)
        requires
            old(self).wf(),
            in_span(old(self).depth as nat, x as int, y as int),
        ensures
            final(self).wf(),
            final(self).depth == old(self).depth,
            final(self).rules == old(self).rules,
            final(self).rule_set == old(self).rule_set,
            extends(old(self).buf@, final(self).buf@),
            r is Err ==> final(self).buf@.len() + 4 > ARENA_CAP,
            match r {
                Ok(_) => forall|a: int, b: int|
                    in_span(final(self).depth as nat, a, b) ==> final(self).spec_alive(a, b) == (
                    old(self).spec_alive(a, b) || (a == x as int && b == y as int)),
                Err(_) => forall|a: int, b: int|
                    final(self).spec_alive(a, b) == old(self).spec_alive(a, b),
            },
    {
        let ghost n0 = self.buf@;
        let root = self.root;
        let res = set_bit(&mut self.buf, root, x, y, self.depth);
        match res {
            Ok(rid) => {
                self.root = rid;
                Ok(())
            },
            Err(e) => {
                proof {
                    lemma_wf_mono(
                        n0,
                        self.buf@,
                        n0[old(self).root as int],
                        old(self).depth as nat,
                    );
                    assert forall|a: int, b: int| final(self).spec_alive(a, b) == old(
                        self,
                    ).spec_alive(a, b) by {
                        lemma_alive_mono(
                            n0,
                            self.buf@,
                            n0[old(self).root as int],
                            old(self).depth as nat,
                            a,
                            b,
                        );
                    }
                }
                Err(e)
            },
        }
    }
}

impl World {
    /// Grow the world by a factor of `2^k`, keeping the previous content
    /// centered at the origin: every cell of the old span keeps its state
    /// and everything outside it is dead. On a full arena the growth
    /// achieved so far is kept, which preserves the content either way.
    #[verifier::loop_isolation(false)]
    pub fn grow(&mut self, k: usize) -> (r: Result<(), CapacityError>)
        requires
            old(self).wf(),
            old(self).depth + k <= 62,
        ensures
            final(self).wf(),
            final(self).rules == old(self).rules,
            final(self).rule_set == old(self).rule_set,
            extends(old(self).buf@, final(self).buf@),
            old(self).depth <= final(self).depth <= old(self).depth + k,
            r is Ok ==> final(self).depth == old(self).depth + k,
            r is Err ==> final(self).buf@.len() + 4 > ARENA_CAP,
            forall|a: int, b: int|
                in_span(final(self).depth as nat, a, b) ==> #[trigger] final(self).spec_alive(a, b)
                    == (in_span(old(self).depth as nat, a, b) && old(self).spec_alive(a, b)),
    {
        let ghost d0 = old(self).depth as nat;
        proof {
            assert forall|a: int, b: int|
                in_span(self.depth as nat, a, b) implies self.spec_alive(a, b) == (in_span(
                d0,
                a,
                b,
            ) && old(self).spec_alive(a, b)) by {}
        }
        let mut i: usize = 0;
        while i < k
            invariant
                self.wf(),
                self.rules == old(self).rules,
                self.rule_set == old(self).rule_set,
                extends(old(self).buf@, self.buf@),
                0 <= i <= k,
                self.depth == old(self).depth + i,
                old(self).depth + k <= 62,
                forall|a: int, b: int|
                    in_span(self.depth as nat, a, b) ==> #[trigger] self.spec_alive(a, b) == (
                    in_span(d0, a, b) && old(self).spec_alive(a, b)),
            decreases k - i,
        {
            let ghost m0 = self.buf@;
            let ghost d = self.depth as nat;
            let ghost w0 = *self;
            let rootcell = self.buf.get(self.root);
            let grown = match rootcell.grow(&mut self.buf, Ghost(d)) {
                Ok(c) => c,
                Err(e) => {
                    proof {
                        assert forall|a: int, b: int|
                            in_span(final(self).depth as nat, a, b) implies #[trigger] final(self).spec_alive(a, b) == (in_span(d0, a, b) && old(self).spec_alive(a, b)) by {
                            assert(w0.spec_alive(a, b) == (in_span(d0, a, b) && old(
                                self,
                            ).spec_alive(a, b)));
                        }
                    }
                    return Err(e);
                },
            };
            if self.buf.node_count() >= ARENA_CAP {
                proof {
                    lemma_wf_mono(m0, self.buf@, m0[self.root as int], d);
                    assert forall|a: int, b: int|
                        in_span(final(self).depth as nat, a, b) implies #[trigger] final(self).spec_alive(a, b) == (in_span(d0, a, b) && old(self).spec_alive(a, b)) by {
                        lemma_alive_mono(m0, self.buf@, m0[self.root as int], d, a, b);
                        assert(w0.spec_alive(a, b) == (in_span(d0, a, b) && old(self).spec_alive(
                            a,
                            b,
                        )));
                    }
                }
                return Err(CapacityError);
            }
            let ghost m1 = self.buf@;
            let rid = self.buf.insert(grown);
            proof {
                lemma_wf_mono(m1, self.buf@, grown, (d + 1) as nat);
                lemma_in_span_mono(d0, d);
            }
            let ghost prev = *self;
            self.root = rid;
            self.depth = self.depth + 1;
            proof {
                assert forall|a: int, b: int|
                    in_span(self.depth as nat, a, b) implies #[trigger] self.spec_alive(a, b) == (
                in_span(d0, a, b) && old(self).spec_alive(a, b)) by {
                    lemma_alive_mono(m1, self.buf@, grown, (d + 1) as nat, a, b);
                    if in_span(d, a, b) {
                        assert(w0.spec_alive(a, b) == (in_span(d0, a, b) && old(self).spec_alive(
                            a,
                            b,
                        )));
                        lemma_alive_mono(m0, m1, m0[w0.root as int], d, a, b);
                    } else {
                        assert(!in_span(d0, a, b));
                    }
                }
            }
            i += 1;
        }
        Ok(())
    }

    /// Advance the world in time by `2^(depth-2)` generations: replace
    /// the root by its memoized result — the level-`depth-1` center of the
    /// root — and grow once to restore the depth, so the caller's depth is
    /// unchanged. Content that the result window does not cover is lost,
    /// as the root carries no margin; callers keep their pattern near the
    /// center. The call fails only when the arena is exhausted.
    pub fn next(&mut self) -> (r: Result<(), CapacityError>)
        requires
            old(self).wf(),
            old(self).depth >= 4,
        ensures
            final(self).wf(),
            final(self).rules == old(self).rules,
            final(self).rule_set == old(self).rule_set,
            extends(old(self).buf@, final(self).buf@),
            old(self).depth - 1 <= final(self).depth <= old(self).depth,
            r is Ok ==> final(self).depth == old(self).depth,
            r is Err ==> final(self).buf@.len() + 4 > ARENA_CAP,
    {
        let root = self.root;
        let ghost m0 = self.buf@;
        let rid = match result_id(&self.rules, &mut self.buf, root, Ghost(self.depth as nat)) {
            Ok(r) => r,
            Err(e) => {
                proof {
                    lemma_wf_mono(m0, self.buf@, m0[root as int], self.depth as nat);
                }
                return Err(e);
            },
        };
        self.root = rid;
        self.depth = self.depth - 1;
        match self.grow(1) {
            Ok(_) => Ok(()),
            Err(e) => Err(e),
        }
    }
}

/// Every in-span cell of `post` is alive exactly when it was alive in
/// `pre` or one of the first `p` entries of `cells` names it.
pub open spec fn adds_exactly(
    post: World,
    pre: World,
    cells: Seq<(WorldOffset, WorldOffset)>,
    p: int,
) -> bool {
    forall|a: int, b: int|
        in_span(post.depth as nat, a, b) ==> #[trigger] post.spec_alive(a, b) == (pre.spec_alive(
            a,
            b,
        ) || exists|k: int| 0 <= k < p && (#[trigger] cells[k]).0 == a && cells[k].1 == b)
}

impl World {
    /// Set every cell in the list alive: afterwards a cell of the span is
    /// alive exactly when it was alive before or the list names it. This
    /// is how a parsed pattern round-trips into the world: reading the
    /// world back yields the pattern, translated by nothing more than what
    /// the list already carries. On arena exhaustion the cells set so far
    /// remain: some prefix of the list has been added, and nothing else.
    #[verifier::loop_isolation(false)]
    pub fn set_cells(&mut self, cells: &Vec<(WorldOffset, WorldOffset)>) -> (r: Result<
        (),
        CapacityError,
    >)
        requires
            old(self).wf(),
            forall|k: int|
                0 <= k < cells@.len() ==> in_span(
                    old(self).depth as nat,
                    (#[trigger] cells@[k]).0 as int,
                    cells@[k].1 as int,
                ),
        ensures
            final(self).wf(),
            final(self).depth == old(self).depth,
            final(self).rules == old(self).rules,
            final(self).rule_set == old(self).rule_set,
            r is Err ==> final(self).buf@.len() + 4 > ARENA_CAP,
            match r {
                Ok(_) => adds_exactly(*final(self), *old(self), cells@, cells@.len() as int),
                Err(_) => exists|p: int|
                    0 <= p <= cells@.len() && #[trigger] adds_exactly(
                        *final(self),
                        *old(self),
                        cells@,
                        p,
                    ),
            },
    {
        let n = cells.len();
        proof {
            assert(adds_exactly(*self, *old(self), cells@, 0));
        }
        let mut i: usize = 0;
        while i < n
            invariant
                self.wf(),
                self.depth == old(self).depth,
                self.rules == old(self).rules,
                self.rule_set == old(self).rule_set,
                0 <= i <= n,
                n == cells@.len(),
                adds_exactly(*self, *old(self), cells@, i as int),
            decreases n - i,
        {
            let (x, y) = cells[i];
            let ghost w0 = *self;
            match self.set(x, y) {
                Ok(_) => {},
                Err(e) => {
                    proof {
                        assert(adds_exactly(*final(self), *old(self), cells@, i as int)) by {
                            assert forall|a: int, b: int|
                                in_span(final(self).depth as nat, a, b) implies #[trigger] final(self).spec_alive(a, b) == (old(self).spec_alive(a, b) || exists|k: int|
                                0 <= k < i && (#[trigger] cells@[k]).0 == a && cells@[k].1
                                    == b) by {
                                assert(w0.spec_alive(a, b) == (old(self).spec_alive(a, b)
                                    || exists|k: int|
                                    0 <= k < i && (#[trigger] cells@[k]).0 == a && cells@[k].1
                                        == b));
                            }
                        }
                    }
                    return Err(e);
                },
            }
            proof {
                assert(adds_exactly(*self, *old(self), cells@, i + 1)) by {
                    assert forall|a: int, b: int|
                        in_span(self.depth as nat, a, b) implies #[trigger] self.spec_alive(a, b)
                        == (old(self).spec_alive(a, b) || exists|k: int|
                        0 <= k < i + 1 && (#[trigger] cells@[k]).0 == a && cells@[k].1 == b) by {
                        assert(w0.spec_alive(a, b) == (old(self).spec_alive(a, b) || exists|
                        k: int|
                            0 <= k < i && (#[trigger] cells@[k]).0 == a && cells@[k].1 == b));
                        if self.spec_alive(a, b) {
                            if !w0.spec_alive(a, b) {
                                assert(cells@[i as int].0 == a && cells@[i as int].1 == b);
                            }
                        } else {
                            assert(!(a == x as int && b == y as int));
                            if exists|k: int|
                                0 <= k < i + 1 && (#[trigger] cells@[k]).0 == a && cells@[k].1
                                    == b {
                                let k = choose|k: int|
                                    0 <= k < i + 1 && (#[trigger] cells@[k]).0 == a && cells@[k].1
                                        == b;
                                assert(k < i);
                            }
                        }
                    }
                }
            }
            i += 1;
        }
        Ok(())
    }
}

/// A point within the span of a level is within the span of every higher
/// level.
proof fn lemma_in_span_mono(l1: nat, l2: nat)
    requires
        3 <= l1 <= l2,
    ensures
        forall|a: int, b: int| in_span(l1, a, b) ==> in_span(l2, a, b),
{
    if l1 < l2 {
        vstd::arithmetic::power2::lemma_pow2_strictly_increases((l1 - 1) as nat, (l2 - 1) as nat);
    }
}

/// Whether the cell at local coordinates `(x, y)` of the level-`level`
/// node at `id` is alive.
fn alive_rec(buf: &CellBuf, id: usize, x: WorldOffset, y: WorldOffset, level: u8) -> (r: bool)
    requires
        buf.inv(),
        id < buf@.len(),
        3 <= level <= 62,
        wf_at(buf@, buf@[id as int], level as nat),
        in_span(level as nat, x as int, y as int),
    ensures
        r == alive_at(buf@, buf@[id as int], level as nat, x as int, y as int),
    decreases level,
{
    let cell = buf.get(id);
    if level == 3 {
        if cell.is_void() {
            return false;
        }
        let (qnw, qne, qsw, qse) = cell.quadrants();
        let q = if x < 0 {
            if y >= 0 {
                qnw
            } else {
                qsw
            }
        } else {
            if y >= 0 {
                qne
            } else {
                qse
            }
        };
        let xm: i128 = if x < 0 {
            x + 4
        } else {
            x
        };
        let ym: i128 = if y < 0 {
            y + 4
        } else {
            y
        };
        proof {
            vstd::arithmetic::power2::lemma2_to64();
            assert(xm == (x as int) % 4 && ym == (y as int) % 4) by {
                assert(in_span(3, x as int, y as int));
            }
        }
        let bit: u16 = (3 - (xm as u16)) + 4 * (ym as u16);
        ((q >> bit) & 1) == 1
    } else {
        if cell.is_void() {
            return false;
        }
        proof {
            lemma_shift_pow2((level - 2) as u64);
            vstd::arithmetic::power2::lemma_pow2_unfold((level - 1) as nat);
        }
        let h: i128 = (1u64 << ((level - 2) as u64)) as i128;
        if x < 0 {
            if y >= 0 {
                alive_rec(buf, cell.nw, x + h, y - h, level - 1)
            } else {
                alive_rec(buf, cell.sw, x + h, y + h, level - 1)
            }
        } else {
            if y >= 0 {
                alive_rec(buf, cell.ne, x - h, y - h, level - 1)
            } else {
                alive_rec(buf, cell.se, x - h, y + h, level - 1)
            }
        }
    }
}

/// Set one bit: rebuild and re-intern the path from the node at `id` down
/// to the leaf holding `(x, y)`, and return the index of the rebuilt node.
fn set_bit(buf: &mut CellBuf, id: usize, x: WorldOffset, y: WorldOffset, level: u8) -> (r: Result<
    usize,
    CapacityError,
>)
    requires
        old(buf).inv(),
        id < old(buf)@.len(),
        3 <= level <= 62,
        wf_at(old(buf)@, old(buf)@[id as int], level as nat),
        in_span(level as nat, x as int, y as int),
    ensures
        final(buf).inv(),
        extends(old(buf)@, final(buf)@),
        final(buf).spec_table() == old(buf).spec_table(),
        r is Err ==> final(buf)@.len() + 4 > ARENA_CAP,
        match r {
            Ok(rid) => rid < final(buf)@.len() && wf_at(
                final(buf)@,
                final(buf)@[rid as int],
                level as nat,
            ) && forall|a: int, b: int|
                in_span(level as nat, a, b) ==> #[trigger] alive_at(
                    final(buf)@,
                    final(buf)@[rid as int],
                    level as nat,
                    a,
                    b,
                ) == (alive_at(old(buf)@, old(buf)@[id as int], level as nat, a, b) || (a
                    == x as int && b == y as int)),
            Err(_) => true,
        },
    decreases level,
{
    let cell = buf.get(id);
    if level == 3 {
        let (qnw, qne, qsw, qse) = cell.quadrants();
        let xm: i128 = if x < 0 {
            x + 4
        } else {
            x
        };
        let ym: i128 = if y < 0 {
            y + 4
        } else {
            y
        };
        proof {
            vstd::arithmetic::power2::lemma2_to64();
            assert(in_span(3, x as int, y as int));
        }
        let bit: u16 = (3 - (xm as u16)) + 4 * (ym as u16);
        let mask: u16 = 1u16 << bit;
        let (nnw, nne, nsw, nse) = if x < 0 {
            if y >= 0 {
                (qnw | mask, qne, qsw, qse)
            } else {
                (qnw, qne, qsw | mask, qse)
            }
        } else {
            if y >= 0 {
                (qnw, qne | mask, qsw, qse)
            } else {
                (qnw, qne, qsw, qse | mask)
            }
        };
        if buf.node_count() >= ARENA_CAP {
            return Err(CapacityError);
        }
        let ghost n0 = buf@;
        let rid = buf.leaf(nnw, nne, nsw, nse);
        proof {
            lemma_set_leaf_alive(
                n0,
                buf@,
                n0[id as int],
                buf@[rid as int],
                x as int,
                y as int,
                xm as int,
                ym as int,
                bit,
                mask,
            );
        }
        Ok(rid)
    } else {
        proof {
            lemma_shift_pow2((level - 2) as u64);
            vstd::arithmetic::power2::lemma_pow2_unfold((level - 1) as nat);
        }
        let h: i128 = (1u64 << ((level - 2) as u64)) as i128;
        let ghost n0 = buf@;
        let ghost oldcell = buf@[id as int];
        // the void cell's quadrant fields are all 0, the void index, so
        // descending into an absent child is descending into the void
        let (cid, cx, cy): (usize, i128, i128) = if x < 0 {
            if y >= 0 {
                (cell.nw, x + h, y - h)
            } else {
                (cell.sw, x + h, y + h)
            }
        } else {
            if y >= 0 {
                (cell.ne, x - h, y - h)
            } else {
                (cell.se, x - h, y + h)
            }
        };
        let sub = match set_bit(buf, cid, cx, cy, level - 1) {
            Ok(s) => s,
            Err(e) => {
                return Err(e);
            },
        };
        let (nnw, nne, nsw, nse) = if x < 0 {
            if y >= 0 {
                (sub, cell.ne, cell.sw, cell.se)
            } else {
                (cell.nw, cell.ne, sub, cell.se)
            }
        } else {
            if y >= 0 {
                (cell.nw, sub, cell.sw, cell.se)
            } else {
                (cell.nw, cell.ne, cell.sw, sub)
            }
        };
        if buf.node_count() >= ARENA_CAP {
            return Err(CapacityError);
        }
        let ghost n1 = buf@;
        let rid = buf.intern(nnw, nne, nsw, nse);
        proof {
            lemma_set_node_alive(
                n0,
                n1,
                buf@,
                oldcell,
                buf@[rid as int],
                sub as int,
                x as int,
                y as int,
                level as nat,
            );
        }
        Ok(rid)
    }
}

/// `1 << k` is `2^k` for exponents below the word width.
pub proof fn lemma_shift_pow2(k: u64)
    requires
        k < 64,
    ensures
        (1u64 << k) == vstd::arithmetic::power2::pow2(k as nat),
        vstd::arithmetic::power2::pow2(k as nat) >= 1,
{
    vstd::arithmetic::power2::lemma_pow2_pos(k as nat);
    vstd::bits::lemma_u64_pow2_no_overflow(k as nat);
    vstd::bits::lemma_u64_shl_is_mul(1u64, k);
}

/// Setting bit `i` of a bitmap sets exactly that bit.
proof fn lemma_u16_bit_or()
    by (bit_vector)
    ensures
        forall|q: u16, i: u16, j: u16|
            i < 16 && j < 16 ==> #[trigger] u16_bit(q | (1u16 << i), j) == (u16_bit(q, j) || i
                == j),
        forall|i: u16, j: u16|
            i < 16 && j < 16 ==> #[trigger] u16_bit((1u16 << i), j) == (i == j),
{
}

/// Setting one bit of one quadrant of a leaf changes exactly the cell at
/// `(x, y)`.
proof fn lemma_set_leaf_alive(
    n0: Seq<Cell>,
    n1: Seq<Cell>,
    oldc: Cell,
    newc: Cell,
    x: int,
    y: int,
    xm: int,
    ym: int,
    bit: u16,
    mask: u16,
)
    requires
        oldc == void_cell() || oldc.wf_leaf(),
        -4 <= x < 4,
        -4 <= y < 4,
        xm == x % 4,
        ym == y % 4,
        bit == 3 - xm + 4 * ym,
        mask == (1u16 << bit),
        newc == (if x < 0 {
            if y >= 0 {
                leaf_cell(quad_nw(oldc) | mask, quad_ne(oldc), quad_sw(oldc), quad_se(oldc))
            } else {
                leaf_cell(quad_nw(oldc), quad_ne(oldc), quad_sw(oldc) | mask, quad_se(oldc))
            }
        } else {
            if y >= 0 {
                leaf_cell(quad_nw(oldc), quad_ne(oldc) | mask, quad_sw(oldc), quad_se(oldc))
            } else {
                leaf_cell(quad_nw(oldc), quad_ne(oldc), quad_sw(oldc), quad_se(oldc) | mask)
            }
        }),
    ensures
        newc.wf_leaf(),
        wf_at(n1, newc, 3),
        forall|a: int, b: int|
            in_span(3, a, b) ==> #[trigger] alive_at(n1, newc, 3, a, b) == (alive_at(
                n0,
                oldc,
                3,
                a,
                b,
            ) || (a == x && b == y)),

{
    lemma_u16_bit_or();
    crate::cell::lemma_u16_bit_zero();
    vstd::arithmetic::power2::lemma2_to64();
    assert(0 <= xm < 4 && 0 <= ym < 4);
    assert(bit < 16);
    assert forall|a: int, b: int| in_span(3, a, b) implies #[trigger] alive_at(n1, newc, 3, a, b)
        == (alive_at(n0, oldc, 3, a, b) || (a == x && b == y)) by {
        assert(-4 <= a < 4 && -4 <= b < 4);
        let am = a % 4;
        let bm = b % 4;
        let abit = (3 - am + 4 * bm) as u16;
        assert(0 <= am < 4 && 0 <= bm < 4);
        assert(abit < 16);
        assert(alive_at(n1, newc, 3, a, b) == leaf_alive(newc, a, b));
        assert(alive_at(n0, oldc, 3, a, b) == leaf_alive(oldc, a, b));
        let same_quad = (a < 0) == (x < 0) && (b >= 0) == (y >= 0);
        if same_quad {
            assert(abit == bit <==> (a == x && b == y)) by {
                if abit == bit {
                    assert(4 * bm - 4 * ym == xm - am);
                    assert(bm == ym && am == xm);
                }
            }
        }
    }
}

/// Replacing one child of an interior cell with the rebuilt subtree
/// changes exactly the cell at `(x, y)`.
proof fn lemma_set_node_alive(
    n0: Seq<Cell>,
    n1: Seq<Cell>,
    n2: Seq<Cell>,
    oldc: Cell,
    newc: Cell,
    sub: int,
    x: int,
    y: int,
    level: nat,
)
    requires
        4 <= level <= 62,
        extends(n0, n1),
        extends(n1, n2),
        n0.len() >= 1,
        n0[0] == void_cell(),
        wf_at(n0, oldc, level),
        in_span(level, x, y),
        0 <= sub < n1.len(),
        wf_at(n1, n1[sub], (level - 1) as nat),
        ({
            let h = vstd::arithmetic::power2::pow2((level - 2) as nat) as int;
            let cid = if x < 0 {
                if y >= 0 {
                    oldc.nw
                } else {
                    oldc.sw
                }
            } else {
                if y >= 0 {
                    oldc.ne
                } else {
                    oldc.se
                }
            };
            let cx = if x < 0 {
                x + h
            } else {
                x - h
            };
            let cy = if y >= 0 {
                y - h
            } else {
                y + h
            };
            &&& (cid as int) < n0.len()
            &&& forall|a: int, b: int|
                in_span((level - 1) as nat, a, b) ==> #[trigger] alive_at(
                    n1,
                    n1[sub],
                    (level - 1) as nat,
                    a,
                    b,
                ) == (alive_at(n0, n0[cid as int], (level - 1) as nat, a, b) || (a == cx && b
                    == cy))
        }),
        sub < usize::MAX,
        newc == (if x < 0 {
            if y >= 0 {
                Cell { nw: sub as usize, ne: oldc.ne, sw: oldc.sw, se: oldc.se }
            } else {
                Cell { nw: oldc.nw, ne: oldc.ne, sw: sub as usize, se: oldc.se }
            }
        } else {
            if y >= 0 {
                Cell { nw: oldc.nw, ne: sub as usize, sw: oldc.sw, se: oldc.se }
            } else {
                Cell { nw: oldc.nw, ne: oldc.ne, sw: oldc.sw, se: sub as usize }
            }
        }),
        n1.len() <= crate::cell::LEAF_MASK,
    ensures
        wf_at(n2, newc, level),
        forall|a: int, b: int|
            in_span(level, a, b) ==> #[trigger] alive_at(n2, newc, level, a, b) == (alive_at(
                n0,
                oldc,
                level,
                a,
                b,
            ) || (a == x && b == y)),
{
    let h = vstd::arithmetic::power2::pow2((level - 2) as nat) as int;
    let hh = vstd::arithmetic::power2::pow2((level - 1) as nat) as int;
    vstd::arithmetic::power2::lemma_pow2_pos((level - 2) as nat);
    vstd::arithmetic::power2::lemma_pow2_unfold((level - 1) as nat);
    assert(hh == 2 * h);
    let cx = if x < 0 {
        x + h
    } else {
        x - h
    };
    let cy = if y >= 0 {
        y - h
    } else {
        y + h
    };
    // the rebuilt child holds a live cell, so it is not the void index
    assert(alive_at(n1, n1[sub], (level - 1) as nat, cx, cy)) by {
        assert(in_span((level - 1) as nat, cx, cy));
    }
    assert(sub != 0) by {
        if sub == 0 {
            assert(n1[0] == void_cell());
            crate::cell::lemma_void_dead(n1, (level - 1) as nat, cx, cy);
        }
    }
    assert(newc != void_cell());
    // well-formedness: the untouched children carry over, the rebuilt one
    // is given
    crate::cell::lemma_void_wf(n2, (level - 1) as nat);
    lemma_wf_mono(n1, n2, n1[sub], (level - 1) as nat);
    if oldc != void_cell() {
        lemma_wf_mono(n0, n2, n0[oldc.nw as int], (level - 1) as nat);
        lemma_wf_mono(n0, n2, n0[oldc.ne as int], (level - 1) as nat);
        lemma_wf_mono(n0, n2, n0[oldc.sw as int], (level - 1) as nat);
        lemma_wf_mono(n0, n2, n0[oldc.se as int], (level - 1) as nat);
    }
    assert(!newc.spec_is_leaf()) by {
        if x < 0 && y >= 0 {
            assert(newc.nw == sub && sub < n1.len() <= crate::cell::LEAF_MASK);
        } else if oldc == void_cell() {
            assert(newc.nw == 0);
        } else {
            assert(newc.nw == oldc.nw && oldc.nw < n0.len());
        }
    }
    assert(wf_at(n2, newc, level));
    assert forall|a: int, b: int| in_span(level, a, b) implies #[trigger] alive_at(
        n2,
        newc,
        level,
        a,
        b,
    ) == (alive_at(n0, oldc, level, a, b) || (a == x && b == y)) by {
        let am = if a < 0 {
            a + h
        } else {
            a - h
        };
        let bm = if b >= 0 {
            b - h
        } else {
            b + h
        };
        assert(in_span((level - 1) as nat, am, bm));
        let same_quad = (a < 0) == (x < 0) && (b >= 0) == (y >= 0);
        if oldc == void_cell() {
            crate::cell::lemma_void_dead(n0, level, a, b);
            if same_quad {
                assert(alive_at(n2, newc, level, a, b) == alive_at(
                    n2,
                    n2[sub],
                    (level - 1) as nat,
                    am,
                    bm,
                ));
                lemma_alive_mono(n1, n2, n1[sub], (level - 1) as nat, am, bm);
                crate::cell::lemma_void_dead(n0, (level - 1) as nat, am, bm);
                assert((am == cx && bm == cy) <==> (a == x && b == y));
            } else {
                crate::cell::lemma_void_dead(n2, (level - 1) as nat, am, bm);
                assert(n2[0] == void_cell());
            }
        } else {
            if same_quad {
                assert(alive_at(n2, newc, level, a, b) == alive_at(
                    n2,
                    n2[sub],
                    (level - 1) as nat,
                    am,
                    bm,
                ));
                lemma_alive_mono(n1, n2, n1[sub], (level - 1) as nat, am, bm);
                let cid = if x < 0 {
                    if y >= 0 {
                        oldc.nw
                    } else {
                        oldc.sw
                    }
                } else {
                    if y >= 0 {
                        oldc.ne
                    } else {
                        oldc.se
                    }
                };
                lemma_alive_mono(n0, n1, n0[cid as int], (level - 1) as nat, am, bm);
                assert((am == cx && bm == cy) <==> (a == x && b == y));
            } else {
                let oid = if a < 0 {
                    if b >= 0 {
                        oldc.nw
                    } else {
                        oldc.sw
                    }
                } else {
                    if b >= 0 {
                        oldc.ne
                    } else {
                        oldc.se
                    }
                };
                assert(alive_at(n2, newc, level, a, b) == alive_at(
                    n2,
                    n2[oid as int],
                    (level - 1) as nat,
                    am,
                    bm,
                ));
                lemma_alive_mono(n0, n2, n0[oid as int], (level - 1) as nat, am, bm);
            }
        }
    }
}

} // verus!
