//! The hash-consed node arena.
//!
//! All quadtree nodes live here. `insert` is the canonicalizing operation:
//! structurally equal cells always receive the same index, so equality of
//! subtrees is equality of indices. Entry 0 is the permanent void cell.
//!
//! Nodes are stored densely, in insertion order, so an index stays valid for
//! the rest of the run; an open-addressed probe table over the node hashes
//! serves the lookups and is rebuilt at the next odd prime past twice its
//! size whenever its load factor reaches 0.8.

use vstd::prelude::*;

verus! {

use crate::cell::Cell;
use crate::cell::LEAF_MASK;
use crate::cell::RES_UNSET_MASK;
use crate::cell::leaf_cell;
use crate::cell::void_cell;
use crate::cell::wf_at;
use crate::cell::unfold;
use crate::cell::tree_result;
use crate::cell::lemma_wf_mono;
use crate::cell::lemma_unfold_mono;
use crate::cell::lemma_level_unique;
use vstd::arithmetic::div_mod::lemma_small_mod;
use vstd::arithmetic::div_mod::lemma_mod_add_multiples_vanish;
use vstd::set_lib::lemma_len_subset;
use vstd::set_lib::lemma_int_range;

/// Marks an unoccupied probe-table slot. Node indices stay below `LEAF_MASK`,
/// so this value can never name a node.
pub const EMPTY_SLOT: usize = usize::MAX;

/// The arena refuses to grow past this many nodes; callers check
/// `node_count` against it before inserting.
pub const ARENA_CAP: usize = usize::MAX / 1024;

/// The arena cannot intern another node: it has reached `ARENA_CAP`
/// distinct cells. Fatal to the simulation; surfaced so that callers never
/// panic.
#[derive(PartialEq, Eq, Structural, Clone, Copy, Debug)]
pub struct CapacityError;

/// The hash-consed store of every quadtree node.
pub struct CellBuf {
    /// All interned cells, densely, in insertion order; an index into this
    /// vector is a node's identity.
    nodes: Vec<Cell>,
    /// Open-addressed probe table over the node hashes; each slot holds a
    /// node index or `EMPTY_SLOT`.
    table: Vec<usize>,
    /// The memoized successor of each node, or a value with the top bit set
    /// when none has been computed yet.
    res: Vec<usize>,
    /// The level at which each cached successor was recorded.
    levels: Ghost<Map<int, nat>>,
    /// The rule table the cached successors were computed under.
    rtable: Ghost<Seq<u16>>,
}

impl View for CellBuf {
    type V = Seq<Cell>;

    closed spec fn view(&self) -> Seq<Cell> {
        self.nodes@
    }
}

/// Every occupied slot names a node below `bound`.
pub open spec fn tbl_sound(table: Seq<usize>, bound: int) -> bool {
    forall|s: int|
        0 <= s < table.len() ==> table[s] == EMPTY_SLOT || (table[s] as int) < bound
}

/// No node is named by two slots.
pub open spec fn tbl_inj(table: Seq<usize>) -> bool {
    forall|s1: int, s2: int|
        0 <= s1 < table.len() && 0 <= s2 < table.len() && s1 != s2 && table[s1] != EMPTY_SLOT
            ==> table[s1] != table[s2]
}

/// Some slot names node `id`.
pub open spec fn tbl_has(table: Seq<usize>, id: int) -> bool {
    exists|s: int| 0 <= s < table.len() && table[s] != EMPTY_SLOT && table[s] == id
}

/// The slots walked before reaching slot `s` from the hash of the node it
/// holds are all occupied; linear probing therefore cannot miss the entry.
pub open spec fn path_clear(table: Seq<usize>, nodes: Seq<Cell>, s: int) -> bool {
    let m = table.len() as int;
    let h = (nodes[table[s] as int].spec_hash() as int) % m;
    forall|j: int| 0 <= j < (s - h + m) % m ==> #[trigger] table[(h + j) % m] != EMPTY_SLOT
}

/// `path_clear` at every occupied slot.
pub open spec fn tbl_paths(table: Seq<usize>, nodes: Seq<Cell>) -> bool {
    forall|s: int|
        0 <= s < table.len() && table[s] != EMPTY_SLOT && (table[s] as int) < nodes.len()
            ==> path_clear(table, nodes, s)
}

/// Walking `j = (s - h + m) % m` probes from `h` lands exactly on `s`.
proof fn lemma_probe_covers(h: int, s: int, m: int)
    requires
        0 <= h < m,
        0 <= s < m,
    ensures
        0 <= (s - h + m) % m < m,
        (h + (s - h + m) % m) % m == s,

{
    if s >= h {
        assert((s - h + m) % m == s - h) by {
            lemma_mod_add_multiples_vanish(s - h, m);
            lemma_small_mod((s - h) as nat, m as nat);
        }
        lemma_small_mod(s as nat, m as nat);
    } else {
        assert((s - h + m) % m == s - h + m) by {
            lemma_small_mod((s - h + m) as nat, m as nat);
        }
        assert((h + (s - h + m)) % m == s) by {
            lemma_mod_add_multiples_vanish(s, m);
            lemma_small_mod(s as nat, m as nat);
        }
    }
}

/// Distinct probe offsets below `m` land on distinct slots.
proof fn lemma_probe_inj(h: int, j1: int, j2: int, m: int)
    requires
        0 <= h < m,
        0 <= j1 < m,
        0 <= j2 < m,
        j1 != j2,
    ensures
        (h + j1) % m != (h + j2) % m,
{
    if (h + j1) % m == (h + j2) % m {
        if h + j1 < m {
            lemma_small_mod((h + j1) as nat, m as nat);
        } else {
            lemma_mod_add_multiples_vanish(h + j1 - m, m);
            lemma_small_mod((h + j1 - m) as nat, m as nat);
        }
        if h + j2 < m {
            lemma_small_mod((h + j2) as nat, m as nat);
        } else {
            lemma_mod_add_multiples_vanish(h + j2 - m, m);
            lemma_small_mod((h + j2 - m) as nat, m as nat);
        }
    }
}

/// A table with fewer nodes than slots always keeps an empty slot: were
/// every slot occupied, injectivity would pack more distinct node indices
/// into the table than there are nodes.
proof fn lemma_table_has_empty(table: Seq<usize>, n: int)
    requires
        0 <= n < table.len(),
        tbl_sound(table, n),
        tbl_inj(table),
    ensures
        exists|s: int| 0 <= s < table.len() && table[s] == EMPTY_SLOT,
{
    if !(exists|s: int| 0 <= s < table.len() && table[s] == EMPTY_SLOT) {
        let m = table.len() as int;
        let ints = table.map_values(|v: usize| v as int);
        assert(ints.no_duplicates()) by {
            assert forall|i: int, j: int|
                0 <= i < ints.len() && 0 <= j < ints.len() && i != j implies ints[i] != ints[j] by {
                assert(table[i] != EMPTY_SLOT);
            }
        }
        ints.unique_seq_to_set();
        let range = vstd::set_lib::set_int_range(0, n);
        assert(ints.to_set().subset_of(range)) by {
            assert forall|x: int| ints.to_set().contains(x) implies range.contains(x) by {
                let i = choose|i: int| 0 <= i < ints.len() && ints[i] == x;
                assert(table[i] != EMPTY_SLOT);
                assert(0 <= (table[i] as int) < n);
            }
        }
        lemma_int_range(0, n);
        lemma_len_subset(ints.to_set(), range);
    }
}

impl CellBuf {
    /// The memoized successor table: entry `id` is the successor's index, or
    /// has its top bit set while none has been computed.
    pub closed spec fn results(&self) -> Seq<usize> {
        self.res@
    }

    /// The rule table that recorded successors were computed under.
    pub closed spec fn spec_table(&self) -> Seq<u16> {
        self.rtable@
    }

    /// The closed part of the invariant: the probe table indexes the node
    /// store faithfully, and the result cache only names well-formed
    /// successors one level below their node.
    pub closed spec fn table_ok(&self) -> bool {
        let n = self.nodes@.len() as int;
        let m = self.table@.len() as int;
        &&& self.res@.len() == n
        &&& 1 <= m
        &&& m <= usize::MAX / 8
        &&& 5 * n < 4 * m
        &&& tbl_sound(self.table@, n)
        &&& tbl_inj(self.table@)
        &&& tbl_paths(self.table@, self.nodes@)
        &&& (forall|id: int| 0 <= id < n ==> tbl_has(self.table@, id))
        &&& (forall|id: int|
            0 <= id < n && #[trigger] self.res@[id] < RES_UNSET_MASK ==> {
                &&& (self.res@[id] as int) < n
                &&& self.levels@.contains_key(id)
                &&& self.levels@[id] >= 4
                &&& self.nodes@[id] != void_cell()
                &&& wf_at(self.nodes@, self.nodes@[id], self.levels@[id])
                &&& wf_at(
                    self.nodes@,
                    self.nodes@[self.res@[id] as int],
                    (self.levels@[id] - 1) as nat,
                )
                &&& unfold(
                    self.nodes@,
                    self.nodes@[self.res@[id] as int],
                    (self.levels@[id] - 1) as nat,
                ) == tree_result(
                    self.rtable@,
                    unfold(self.nodes@, self.nodes@[id], self.levels@[id]),
                    self.levels@[id],
                )
            })
    }

    /// The arena invariant: entry 0 is the void cell, all entries are
    /// distinct (the canonicalization invariant), and the probe table is
    /// consistent.
    pub open spec fn inv(&self) -> bool {
        &&& 1 <= self@.len()
        &&& self@.len() <= ARENA_CAP
        &&& self@[0] == void_cell()
        &&& (forall|i: int, j: int| 0 <= i < j < self@.len() ==> self@[i] != self@[j])
        &&& self.table_ok()
    }

    /// Create an arena holding only the void cell.
    pub fn new() -> (r: Self)
        ensures
            r.inv(),
            r@ =~= seq![void_cell()],
            forall|id: int| 0 <= id < r.results().len() ==> r.results()[id] >= RES_UNSET_MASK,
    {
        let mut nodes: Vec<Cell> = Vec::new();
        nodes.push(Cell::void());
        let mut res: Vec<usize> = Vec::new();
        res.push(RES_UNSET_MASK);
        let mut table: Vec<usize> = empty_table(61);
        let h = Cell::void().hash() % 61;
        table[h] = 0;
        let r = CellBuf {
            nodes,
            table,
            res,
            levels: Ghost(Map::empty()),
            rtable: Ghost(Seq::empty()),
        };
        proof {
            assert forall|id: int| 0 <= id < r.nodes@.len() implies tbl_has(r.table@, id) by {
                assert(r.table@[h as int] == 0);
            }
            assert forall|s: int|
                0 <= s < r.table@.len() && r.table@[s] != EMPTY_SLOT
                    && (r.table@[s] as int) < r.nodes@.len() implies path_clear(
                r.table@,
                r.nodes@,
                s,
            ) by {
                assert(s == h as int);
                let hs = (r.nodes@[0].spec_hash() as int) % 61;
                assert(hs == h as int);
                assert((s - hs + 61) % 61 == 0) by {
                    lemma_mod_add_multiples_vanish(0, 61);
                }
            }
        }
        r
    }

    /// Fix the rule table that memoized successors will be computed
    /// under. Recorded while the cache is still empty, once per arena.
    pub fn set_rule_table(&mut self, Ghost(t): Ghost<Seq<u16>>)
        requires
            old(self).inv(),
            forall|id: int|
                0 <= id < old(self).results().len() ==> old(self).results()[id]
                    >= RES_UNSET_MASK,
        ensures
            final(self).inv(),
            final(self)@ == old(self)@,
            final(self).results() == old(self).results(),
            final(self).spec_table() == t,
    {
        proof {
            self.rtable@ = t;
            assert forall|id: int|
                0 <= id < self.res@.len() implies self.res@[id] >= RES_UNSET_MASK by {
                assert(old(self).results()[id] >= RES_UNSET_MASK);
            }
        }
    }

    /// How many distinct nodes have been interned.
    pub fn node_count(&self) -> (r: usize)
        ensures
            r == self@.len(),
    {
        self.nodes.len()
    }

    /// The permanent index of the void cell.
    pub fn void(&self) -> (r: usize)
        ensures
            r == 0,
    {
        0
    }

    /// Read a node.
    pub fn get(&self, index: usize) -> (r: Cell)
        requires
            index < self@.len(),
        ensures
            r == self@[index as int],
    {
        self.nodes[index]
    }
}

impl CellBuf {
    /// Record `id` in the first empty slot on the probe sequence that starts
    /// at the hash of its node.
    fn place(table: &mut Vec<usize>, nodes: &Vec<Cell>, id: usize)
        requires
            1 <= old(table)@.len() <= usize::MAX / 8,
            nodes@.len() < old(table)@.len(),
            id < nodes@.len(),
            tbl_sound(old(table)@, nodes@.len() as int),
            tbl_inj(old(table)@),
            tbl_paths(old(table)@, nodes@),
            !tbl_has(old(table)@, id as int),
        ensures
            final(table)@.len() == old(table)@.len(),
            tbl_sound(final(table)@, nodes@.len() as int),
            tbl_inj(final(table)@),
            tbl_paths(final(table)@, nodes@),
            tbl_has(final(table)@, id as int),
            forall|x: int|
                0 <= x < nodes@.len() && tbl_has(old(table)@, x) ==> tbl_has(final(table)@, x),
            forall|x: int| tbl_has(final(table)@, x) ==> x == id || tbl_has(old(table)@, x),
    {
        let m = table.len();
        let h = nodes[id].hash() % m;
        let mut j: usize = 0;
        while j < m
            invariant
                table@ == old(table)@,
                m == table@.len(),
                1 <= m <= usize::MAX / 8,
                nodes@.len() < m,
                id < nodes@.len(),
                tbl_sound(table@, nodes@.len() as int),
                tbl_inj(table@),
                tbl_paths(table@, nodes@),
                !tbl_has(table@, id as int),
                h < m,
                h as int == (nodes@[id as int].spec_hash() as int) % (m as int),
                j <= m,
                forall|jj: int|
                    0 <= jj < j ==> #[trigger] table@[(h + jj) % (m as int)] != EMPTY_SLOT,
            decreases m - j,
        {
            let s = (h + j) % m;
            if table[s] == EMPTY_SLOT {
                table[s] = id;
                proof {
                    let mi = m as int;
                    let hi = h as int;
                    let si = s as int;
                    let old_t = old(table)@;
                    let new_t = table@;
                    assert(new_t == old_t.update(si, id));
                    // the new entry's probe distance is exactly j
                    lemma_probe_covers(hi, si, mi);
                    let d = (si - hi + mi) % mi;
                    if d != j as int {
                        lemma_probe_inj(hi, d, j as int, mi);
                    }
                    assert(d == j as int);
                    // the slots walked before it are occupied and unchanged
                    assert forall|jj: int| 0 <= jj < d implies #[trigger] new_t[(hi + jj) % mi]
                        != EMPTY_SLOT by {
                        lemma_probe_inj(hi, jj, j as int, mi);
                        assert(old_t[(hi + jj) % mi] != EMPTY_SLOT);
                    }
                    assert(path_clear(new_t, nodes@, si));
                    // every other occupied slot kept its contents and its path
                    assert forall|s2: int|
                        0 <= s2 < mi && new_t[s2] != EMPTY_SLOT && (new_t[s2] as int)
                            < nodes@.len() && s2 != si implies path_clear(new_t, nodes@, s2) by {
                        assert(old_t[s2] == new_t[s2]);
                        assert(path_clear(old_t, nodes@, s2));
                        let h2 = (nodes@[new_t[s2] as int].spec_hash() as int) % mi;
                        assert forall|jj: int| 0 <= jj < (s2 - h2 + mi) % mi implies #[trigger]
                            new_t[(h2 + jj) % mi] != EMPTY_SLOT by {
                            assert(old_t[(h2 + jj) % mi] != EMPTY_SLOT);
                        }
                    }
                    assert(tbl_has(new_t, id as int)) by {
                        assert(new_t[si] == id);
                    }
                    assert forall|x: int|
                        0 <= x < nodes@.len() && tbl_has(old_t, x) implies tbl_has(new_t, x) by {
                        let sx = choose|sx: int| 0 <= sx < old_t.len() && old_t[sx] == x;
                        assert(sx != si);
                        assert(new_t[sx] == x);
                    }
                }
                return;
            }
            j += 1;
        }
        proof {
            let mi = m as int;
            let hi = h as int;
            assert forall|s: int| 0 <= s < mi implies table@[s] != EMPTY_SLOT by {
                lemma_probe_covers(hi, s, mi);
                let jj = (s - hi + mi) % mi;
                assert(table@[(hi + jj) % mi] != EMPTY_SLOT);
            }
            lemma_table_has_empty(table@, nodes@.len() as int);
            let se = choose|se: int| 0 <= se < table@.len() && table@[se] == EMPTY_SLOT;
            assert(table@[se] != EMPTY_SLOT);
        }
    }

    /// Find the canonical index of `cell`, walking the probe sequence from
    /// its hash; `None` means no structurally equal node is interned.
    fn lookup(&self, cell: Cell) -> (r: Option<usize>)
        requires
            self.inv(),
        ensures
            match r {
                Some(id) => id < self@.len() && self@[id as int] == cell,
                None => forall|i: int| 0 <= i < self@.len() ==> self@[i] != cell,
            },
    {
        let m = self.table.len();
        let h = cell.hash() % m;
        let mut j: usize = 0;
        while j < m
            invariant
                self.inv(),
                m == self.table@.len(),
                h < m,
                h as int == (cell.spec_hash() as int) % (m as int),
                j <= m,
                forall|jj: int|
                    0 <= jj < j ==> #[trigger] self.table@[(h + jj) % (m as int)] != EMPTY_SLOT
                        && self@[self.table@[(h + jj) % (m as int)] as int] != cell,
            decreases m - j,
        {
            let s = (h + j) % m;
            let t = self.table[s];
            if t == EMPTY_SLOT {
                proof {
                    let mi = m as int;
                    let hi = h as int;
                    assert forall|i: int| 0 <= i < self@.len() implies self@[i] != cell by {
                        if self@[i] == cell {
                            assert(tbl_has(self.table@, i));
                            let si = choose|si: int|
                                0 <= si < self.table@.len() && self.table@[si] == i;
                            assert(self.table@[si] != EMPTY_SLOT);
                            assert(path_clear(self.table@, self.nodes@, si));
                            lemma_probe_covers(hi, si, mi);
                            let d = (si - hi + mi) % mi;
                            assert((self.nodes@[i].spec_hash() as int) % mi == hi);
                            if d < j as int {
                                assert(self.table@[(hi + d) % mi] != EMPTY_SLOT
                                    && self@[self.table@[(hi + d) % mi] as int] != cell);
                            } else if d == j as int {
                                assert(self.table@[(hi + d) % mi] == i);
                            } else {
                                assert(self.table@[(hi + j as int) % mi] != EMPTY_SLOT);
                                assert(self.table@[s as int] == EMPTY_SLOT);
                                lemma_small_mod((h + j) as nat, m as nat);
                            }
                        }
                    }
                }
                return None;
            }
            if self.nodes[t] == cell {
                return Some(t);
            }
            j += 1;
        }
        proof {
            let mi = m as int;
            let hi = h as int;
            assert forall|s: int| 0 <= s < mi implies self.table@[s] != EMPTY_SLOT by {
                lemma_probe_covers(hi, s, mi);
                let jj = (s - hi + mi) % mi;
                assert(self.table@[(hi + jj) % mi] != EMPTY_SLOT);
            }
            lemma_table_has_empty(self.table@, self.nodes@.len() as int);
            let se = choose|se: int| 0 <= se < self.table@.len() && self.table@[se] == EMPTY_SLOT;
            assert(self.table@[se] != EMPTY_SLOT);
        }
        None
    }
}

impl CellBuf {
    /// Rebuild the probe table at the next odd prime past twice its size,
    /// reinserting every node. Node indices are untouched, so identity is
    /// preserved across the rehash.
    fn rehash(&mut self)
        requires
            old(self).inv(),
            old(self)@.len() < ARENA_CAP,
            5 * (old(self)@.len() + 1) >= 4 * old(self).table_len(),
        ensures
            final(self).inv(),
            final(self)@ == old(self)@,
            final(self).results() == old(self).results(),
            final(self).levels() == old(self).levels(),
            final(self).spec_table() == old(self).spec_table(),
            5 * (final(self)@.len() + 1) < 4 * final(self).table_len(),
    {
        let m2 = next_prime(2 * self.table.len());
        let mut table: Vec<usize> = empty_table(m2);
        let n = self.nodes.len();
        proof {
            assert(5 * (n as int) < 4 * (m2 as int));
        }
        let mut id: usize = 0;
        while id < n
            invariant
                n == self.nodes@.len(),
                table@.len() == m2,
                1 <= m2 <= usize::MAX / 8,
                (n as int) < (m2 as int),
                id <= n,
                tbl_sound(table@, n as int),
                tbl_inj(table@),
                tbl_paths(table@, self.nodes@),
                forall|x: int| 0 <= x < id ==> tbl_has(table@, x),
                forall|x: int| tbl_has(table@, x) ==> 0 <= x < id,
            decreases n - id,
        {
            Self::place(&mut table, &self.nodes, id);
            id += 1;
        }
        self.table = table;
    }

    /// The number of slots in the probe table.
    pub closed spec fn table_len(&self) -> int {
        self.table@.len() as int
    }

    /// The level at which each cached successor was recorded.
    pub closed spec fn levels(&self) -> Map<int, nat> {
        self.levels@
    }

    /// Intern a cell: return the index of the canonical node structurally
    /// equal to `cell`, appending it to the store when it is new. Equal cells
    /// always receive equal indices, and entry 0 stays the void cell, so a
    /// cell whose four fields are zero interns to index 0.
    #[verifier::rlimit(100)]
    pub fn insert(&mut self, cell: Cell) -> (r: usize)
        requires
            old(self).inv(),
            old(self)@.len() < ARENA_CAP,
        ensures
            final(self).inv(),
            r < final(self)@.len(),
            final(self)@[r as int] == cell,
            old(self)@.contains(cell) ==> final(self)@ == old(self)@ && final(self).results()
                == old(self).results(),
            !old(self)@.contains(cell) ==> final(self)@ == old(self)@.push(cell) && r == old(
                self,
            )@.len() && final(self).results() == old(self).results().push(RES_UNSET_MASK),
            cell == void_cell() ==> r == 0,
            final(self).spec_table() == old(self).spec_table(),
    {
        if 5 * (self.nodes.len() + 1) >= 4 * self.table.len() {
            self.rehash();
        }
        let found = self.lookup(cell);
        match found {
            Some(id) => {
                proof {
                    assert(old(self)@.contains(cell)) by {
                        assert(self@[id as int] == cell);
                    }
                    if cell == void_cell() {
                        assert(self@[0] == void_cell());
                        if id != 0 {
                            assert(self@[id as int] == self@[0]);
                        }
                    }
                }
                id
            },
            None => {
                let id = self.nodes.len();
                let ghost pre = *self;
                self.nodes.push(cell);
                self.res.push(RES_UNSET_MASK);
                proof {
                    assert forall|s: int|
                        0 <= s < self.table@.len() && self.table@[s] != EMPTY_SLOT
                            && (self.table@[s] as int) < self.nodes@.len() implies path_clear(
                        self.table@,
                        self.nodes@,
                        s,
                    ) by {
                        assert((self.table@[s] as int) < pre.nodes@.len());
                        assert(path_clear(self.table@, pre.nodes@, s));
                        assert(pre.nodes@[self.table@[s] as int]
                            == self.nodes@[self.table@[s] as int]);
                    }
                }
                Self::place(&mut self.table, &self.nodes, id);
                proof {
                    let n2 = self.nodes@.len() as int;
                    assert(self.nodes@ == pre.nodes@.push(cell));
                    // entry 0 and distinctness carry over; the new cell equals
                    // no old one
                    assert forall|i: int, j: int| 0 <= i < j < n2 implies self.nodes@[i]
                        != self.nodes@[j] by {
                        if j < n2 - 1 {
                            assert(pre.nodes@[i] != pre.nodes@[j]);
                        } else {
                            assert(pre.nodes@[i] != cell);
                        }
                    }
                    // the probe table still covers every node
                    assert forall|x: int| 0 <= x < n2 implies tbl_has(self.table@, x) by {
                        if x < n2 - 1 {
                            assert(tbl_has(pre.table@, x));
                        }
                    }
                    // probe paths are unchanged: hashing only reads stored
                    // node values, and every stored index predates the push
                    assert(tbl_paths(self.table@, self.nodes@));
                    // the result cache still names well-formed successors
                    assert forall|id2: int|
                        0 <= id2 < n2 && self.res@[id2] < RES_UNSET_MASK implies {
                        &&& (self.res@[id2] as int) < n2
                        &&& self.levels@.contains_key(id2)
                        &&& self.levels@[id2] >= 4
                        &&& self.nodes@[id2] != void_cell()
                        &&& wf_at(self.nodes@, self.nodes@[id2], self.levels@[id2])
                        &&& wf_at(
                            self.nodes@,
                            self.nodes@[self.res@[id2] as int],
                            (self.levels@[id2] - 1) as nat,
                        )
                        &&& unfold(
                            self.nodes@,
                            self.nodes@[self.res@[id2] as int],
                            (self.levels@[id2] - 1) as nat,
                        ) == tree_result(
                            self.rtable@,
                            unfold(self.nodes@, self.nodes@[id2], self.levels@[id2]),
                            self.levels@[id2],
                        )
                    } by {
                        assert(id2 < n2 - 1);
                        assert(pre.res@[id2] < RES_UNSET_MASK);
                        assert(pre.table_ok());
                        assert(wf_at(pre.nodes@, pre.nodes@[id2], pre.levels@[id2]));
                        lemma_wf_mono(
                            pre.nodes@,
                            self.nodes@,
                            pre.nodes@[id2],
                            pre.levels@[id2],
                        );
                        lemma_wf_mono(
                            pre.nodes@,
                            self.nodes@,
                            pre.nodes@[pre.res@[id2] as int],
                            (pre.levels@[id2] - 1) as nat,
                        );
                        lemma_unfold_mono(
                            pre.nodes@,
                            self.nodes@,
                            pre.nodes@[id2],
                            pre.levels@[id2],
                        );
                        lemma_unfold_mono(
                            pre.nodes@,
                            self.nodes@,
                            pre.nodes@[pre.res@[id2] as int],
                            (pre.levels@[id2] - 1) as nat,
                        );
                    }
                    assert(cell != void_cell()) by {
                        assert(pre.nodes@[0] == void_cell());
                    }
                }
                id
            },
        }
    }
}

impl CellBuf {
    /// Intern an interior node with the given four children. Since the void
    /// cell sits at index 0, a node whose four children are all the void
    /// index interns to the void index itself.
    pub fn intern(&mut self, nw: usize, ne: usize, sw: usize, se: usize) -> (r: usize)
        requires
            old(self).inv(),
            old(self)@.len() < ARENA_CAP,
        ensures
            final(self).inv(),
            r < final(self)@.len(),
            final(self)@[r as int] == (Cell { nw, ne, sw, se }),
            old(self)@.contains(Cell { nw, ne, sw, se }) ==> final(self)@ == old(self)@
                && final(self).results() == old(self).results(),
            !old(self)@.contains(Cell { nw, ne, sw, se }) ==> final(self)@ == old(self)@.push(
                Cell { nw, ne, sw, se },
            ) && r == old(self)@.len() && final(self).results() == old(self).results().push(
                RES_UNSET_MASK,
            ),
            nw == 0 && ne == 0 && sw == 0 && se == 0 ==> r == 0,
            final(self).spec_table() == old(self).spec_table(),
    {
        self.insert(Cell::new(nw, ne, sw, se))
    }

    /// Intern a leaf with the given four quadrant bitmaps; the tag bit is set
    /// on the `nw` field at interning time.
    pub fn leaf(&mut self, nw: u16, ne: u16, sw: u16, se: u16) -> (r: usize)
        requires
            old(self).inv(),
            old(self)@.len() < ARENA_CAP,
        ensures
            final(self).inv(),
            r < final(self)@.len(),
            final(self)@[r as int] == leaf_cell(nw, ne, sw, se),
            old(self)@.contains(leaf_cell(nw, ne, sw, se)) ==> final(self)@ == old(self)@
                && final(self).results() == old(self).results(),
            !old(self)@.contains(leaf_cell(nw, ne, sw, se)) ==> final(self)@ == old(
                self,
            )@.push(leaf_cell(nw, ne, sw, se)) && r == old(self)@.len() && final(self).results()
                == old(self).results().push(RES_UNSET_MASK),
            final(self).spec_table() == old(self).spec_table(),
    {
        self.insert(Cell::leaf(nw, ne, sw, se))
    }

    /// The memoized successor of node `index`, when one has been recorded.
    /// The cached index is always a node one level below `index`.
    #[verifier::rlimit(60)]
    pub fn get_result(&self, index: usize) -> (r: Option<usize>)
        requires
            self.inv(),
            index < self@.len(),
        ensures
            match r {
                Some(rid) => {
                    &&& self.results()[index as int] == rid
                    &&& rid < self@.len()
                    &&& self@[index as int] != void_cell()
                    &&& forall|k: nat|
                        k >= 4 && wf_at(self@, self@[index as int], k) ==> wf_at(
                            self@,
                            self@[rid as int],
                            (k - 1) as nat,
                        ) && unfold(self@, self@[rid as int], (k - 1) as nat) == tree_result(
                            self.spec_table(),
                            unfold(self@, self@[index as int], k),
                            k,
                        )
                },
                None => self.results()[index as int] >= RES_UNSET_MASK,
            },
    {
        let v = self.res[index];
        if v >= RES_UNSET_MASK {
            None
        } else {
            proof {
                assert forall|k: nat|
                    k >= 4 && wf_at(self@, self@[index as int], k) implies wf_at(
                    self@,
                    self@[v as int],
                    (k - 1) as nat,
                ) && unfold(self@, self@[v as int], (k - 1) as nat) == tree_result(
                    self.spec_table(),
                    unfold(self@, self@[index as int], k),
                    k,
                ) by {
                    assert forall|i: int| 1 <= i < self@.len() implies self@[i]
                        != void_cell() by {
                        assert(self@[0] == void_cell());
                    }
                    lemma_level_unique(
                        self@,
                        self@[index as int],
                        k,
                        self.levels@[index as int],
                    );
                }
            }
            Some(v)
        }
    }

    /// Record `rid` as the memoized successor of node `index`. The caller
    /// supplies the level of `index`; the successor must be well-formed one
    /// level below.
    pub fn set_result(&mut self, index: usize, rid: usize, Ghost(level): Ghost<nat>)
        requires
            old(self).inv(),
            index < old(self)@.len(),
            rid < old(self)@.len(),
            level >= 4,
            old(self)@[index as int] != void_cell(),
            wf_at(old(self)@, old(self)@[index as int], level),
            wf_at(old(self)@, old(self)@[rid as int], (level - 1) as nat),
            unfold(old(self)@, old(self)@[rid as int], (level - 1) as nat) == tree_result(
                old(self).spec_table(),
                unfold(old(self)@, old(self)@[index as int], level),
                level,
            ),
        ensures
            final(self).inv(),
            final(self)@ == old(self)@,
            final(self).results() == old(self).results().update(index as int, rid),
            final(self).spec_table() == old(self).spec_table(),
    {
        self.res[index] = rid;
        proof {
            self.levels@ = self.levels@.insert(index as int, level);
            assert(rid < RES_UNSET_MASK);
        }
    }

    /// Canonical indices are unique: two slots never hold equal cells. This
    /// is the canonicalization invariant in lemma form; with `insert`'s
    /// contract it says that interning structurally equal inputs twice
    /// returns the same index.
    pub proof fn lemma_canonical_index(&self, i: int, j: int)
        requires
            self.inv(),
            0 <= i < self@.len(),
            0 <= j < self@.len(),
            self@[i] == self@[j],
        ensures
            i == j,
    {
    }
}

/// A table of `n` empty slots.
fn empty_table(n: usize) -> (r: Vec<usize>)
    ensures
        r@.len() == n,
        forall|s: int| 0 <= s < n ==> r@[s] == EMPTY_SLOT,
{
    let mut table: Vec<usize> = Vec::new();
    let mut i: usize = 0;
    while i < n
        invariant
            i <= n,
            table@.len() == i,
            forall|s: int| 0 <= s < i ==> table@[s] == EMPTY_SLOT,
        decreases n - i,
    {
        table.push(EMPTY_SLOT);
        i += 1;
    }
    table
}

/// Whether `n` has no odd divisor between 3 and its square root. Used only
/// to pick probe-table sizes; nothing relies on the answer.
fn trial_division_prime(n: usize) -> bool
    requires
        1 <= n <= usize::MAX - 4,
{
    let mut i: usize = 3;
    while i <= n / i
        invariant
            1 <= n <= usize::MAX - 4,
            3 <= i <= n + 2,
        decreases n + 2 - i,
    {
        if n % i == 0 {
            return false;
        }
        i += 2;
    }
    true
}

/// The next odd number at or past `n` that passes trial division. The search
/// is bounded; the bound is far beyond the next prime in practice, and only
/// oddness and the range of the result are relied on.
pub fn next_prime(n: usize) -> (r: usize)
    requires
        n <= usize::MAX / 4,
    ensures
        n <= r <= 2 * n + 9,
        r % 2 == 1,
{
    let mut cand: usize = if n % 2 == 0 { n + 1 } else { n };
    while cand < 2 * n + 8
        invariant
            n <= usize::MAX / 4,
            n <= cand <= 2 * n + 9,
            cand % 2 == 1,
        decreases 2 * n + 9 - cand,
    {
        if trial_division_prime(cand) {
            return cand;
        }
        cand += 2;
    }
    cand
}

} // verus!
