use hashlife::cell::Cell;
use hashlife::rule_set::count_bits;
use hashlife::rule_set::RuleSet;

#[test]
fn count_bits_matches_popcount() {
    assert_eq!(count_bits(0), 0);
    assert_eq!(count_bits(1), 1);
    assert_eq!(count_bits(0b1010_1010_1010_1010), 8);
    assert_eq!(count_bits(u16::MAX), 16);
    assert_eq!(count_bits(0b0000_0111_0101_0111), 8);
}

#[test]
fn rule_table_sets_only_central_bits() {
    // the central 2x2 of the 4x4 layout occupies bits 5, 6, 9 and 10
    let center: u16 = 0b0000_0110_0110_0000;
    let table = RuleSet::new(0b1000, 0b1100).compute_rules();
    assert_eq!(table.len(), 0x10000);
    for entry in &table {
        assert_eq!(entry & !center, 0);
    }
    // the same holds for a rule with every digit present
    let table = RuleSet::new(0b1_1111_1111, 0b1_1111_1111).compute_rules();
    for entry in &table {
        assert_eq!(entry & !center, 0);
    }
}

#[test]
fn rule_table_spot_values() {
    let table = RuleSet::new(0b1000, 0b1100).compute_rules();
    // an empty configuration stays empty under Life
    assert_eq!(table[0], 0);
    // a full 4x4: each central cell has eight live neighbors and dies
    assert_eq!(table[0xFFFF], 0);
    // a 2x2 block in the center survives: every block cell has three
    // neighbors
    let block: u16 = 0b0000_0110_0110_0000;
    assert_eq!(table[block as usize], block);
}

/// One generation of the outer-totalistic rule on an 8x8 grid whose
/// outside is dead.
fn naive_step(grid: [[bool; 8]; 8], births: u16, survivals: u16) -> [[bool; 8]; 8] {
    let mut out = [[false; 8]; 8];
    for r in 0..8i32 {
        for c in 0..8i32 {
            let mut n = 0u16;
            for dr in -1..=1 {
                for dc in -1..=1 {
                    if dr == 0 && dc == 0 {
                        continue;
                    }
                    let rr = r + dr;
                    let cc = c + dc;
                    if (0..8).contains(&rr) && (0..8).contains(&cc) && grid[rr as usize][cc as usize]
                    {
                        n += 1;
                    }
                }
            }
            let mask = 1u16 << n;
            out[r as usize][c as usize] = if grid[r as usize][c as usize] {
                survivals & mask == mask
            } else {
                births & mask == mask
            };
        }
    }
    out
}

fn grid_of_quadrants(nw: u16, ne: u16, sw: u16, se: u16) -> [[bool; 8]; 8] {
    let mut grid = [[false; 8]; 8];
    for r in 0..8usize {
        for c in 0..8usize {
            let q = match (r < 4, c < 4) {
                (true, true) => nw,
                (true, false) => ne,
                (false, true) => sw,
                (false, false) => se,
            };
            let bit = 15 - (4 * (r % 4) + (c % 4));
            grid[r][c] = (q >> bit) & 1 == 1;
        }
    }
    grid
}

fn center_of(grid: [[bool; 8]; 8]) -> u16 {
    let mut out = 0u16;
    for r in 2..6usize {
        for c in 2..6usize {
            if grid[r][c] {
                out |= 1 << (15 - (4 * (r - 2) + (c - 2)));
            }
        }
    }
    out
}

#[test]
fn leaf_result_agrees_with_two_naive_generations() {
    let births: u16 = 0b1000;
    let survivals: u16 = 0b1100;
    let table = RuleSet::new(births, survivals).compute_rules();

    let mut cases: Vec<(u16, u16, u16, u16)> = vec![
        (0, 0, 0, 0),
        (0xFFFF, 0xFFFF, 0xFFFF, 0xFFFF),
        // a block across the leaf center
        (0b0000_0000_0011_0011, 0b0000_0000_1100_1100, 0b0011_0011_0000_0000, 0b1100_1100_0000_0000),
        // a blinker on the center row
        (0b0000_0000_0000_0001, 0b0000_0000_0000_1100, 0, 0),
    ];
    // every single-cell leaf
    for i in 0..16 {
        cases.push((1u16 << i, 0, 0, 0));
        cases.push((0, 1u16 << i, 0, 0));
        cases.push((0, 0, 1u16 << i, 0));
        cases.push((0, 0, 0, 1u16 << i));
    }
    // a pseudo-random sweep
    let mut state: u64 = 0x2545_F491_4F6C_DD1D;
    for _ in 0..300 {
        let mut next = || {
            state ^= state << 13;
            state ^= state >> 7;
            state ^= state << 17;
            state as u16
        };
        let a = next();
        let b = next();
        let c = next();
        let d = next();
        cases.push((a, b, c, d));
    }

    for (nw, ne, sw, se) in cases {
        let leaf = Cell::leaf(nw, ne, sw, se);
        let got = leaf.compute_leaf_res(&table);
        let grid = grid_of_quadrants(nw, ne, sw, se);
        let expected = center_of(naive_step(naive_step(grid, births, survivals), births, survivals));
        assert_eq!(got, expected, "leaf {:04x} {:04x} {:04x} {:04x}", nw, ne, sw, se);
    }
}
