use hashlife::cell::Cell;
use hashlife::cellbuf::CellBuf;
use hashlife::parse_rle;
use hashlife::rule_set::RuleSet;
use hashlife::world::World;

fn live_set(world: &World, half: i128) -> Vec<(i128, i128)> {
    let mut cells = Vec::new();
    let mut y = half - 1;
    while y >= -half {
        for x in -half..half {
            if world.is_alive(x, y) {
                cells.push((x, y));
            }
        }
        y -= 1;
    }
    cells.sort();
    cells
}

#[test]
fn set_then_read_back() {
    let mut world = World::new("b3/s23").unwrap();
    world.set(0, 0).unwrap();
    world.set(-4, 3).unwrap();
    world.set(3, -4).unwrap();
    let mut expected = vec![(0, 0), (-4, 3), (3, -4)];
    expected.sort();
    assert_eq!(live_set(&world, 4), expected);
}

#[test]
fn intern_is_canonical() {
    let mut buf = CellBuf::new();
    let l1 = buf.leaf(1, 2, 3, 4);
    let l2 = buf.leaf(1, 2, 3, 4);
    assert_eq!(l1, l2);
    let n1 = buf.intern(l1, l1, l1, l1);
    let n2 = buf.intern(l2, l2, l2, l2);
    assert_eq!(n1, n2);
}

#[test]
fn identical_sixteen_cells_share_one_slot() {
    let mut buf = CellBuf::new();
    let leaf = buf.leaf(0b0011_0011_0000_0000, 0, 0, 0);
    let first = buf.intern(leaf, leaf, leaf, leaf);
    let count_after_first = buf.node_count();
    let second = buf.intern(leaf, leaf, leaf, leaf);
    // the second insertion adds nothing: the identical subtree shares the
    // slot
    assert_eq!(buf.node_count(), count_after_first);
    assert_eq!(first, second);
}

#[test]
fn void_children_intern_to_the_void_index() {
    let mut buf = CellBuf::new();
    let v = buf.void();
    assert_eq!(v, 0);
    let node = buf.intern(v, v, v, v);
    assert_eq!(node, v);
}

#[test]
fn block_is_a_still_life() {
    // a 2x2 block near the origin; the step needs an interior root, so
    // grow once first
    let mut world = World::new("b3/s23").unwrap();
    world.grow(1).unwrap();
    for (x, y) in [(0, 0), (1, 0), (0, -1), (1, -1)] {
        world.set(x, y).unwrap();
    }
    let before = live_set(&world, 4);
    world.next().unwrap();
    assert_eq!(world.depth, 4);
    assert_eq!(live_set(&world, 4), before);
    world.next().unwrap();
    assert_eq!(live_set(&world, 4), before);
}

#[test]
fn blinker_returns_after_even_generations() {
    // one step of a depth-4 world advances four generations, and the
    // blinker has period two, so it reads back unchanged; its vertical
    // phase falls between steps
    let mut world = World::new("b3/s23").unwrap();
    world.grow(1).unwrap();
    for (x, y) in [(-1, 0), (0, 0), (1, 0)] {
        world.set(x, y).unwrap();
    }
    let before = live_set(&world, 4);
    world.next().unwrap();
    assert_eq!(world.depth, 4);
    assert_eq!(live_set(&world, 4), before);
}

#[test]
fn glider_translates_diagonally() {
    // the classic glider `bob$2bo$3o`, placed up-left of center; its
    // canonical displacement is (+1, -1) per four generations, and one
    // step of a depth-5 world advances eight generations, so four steps
    // translate it by (+8, -8) with the depth unchanged throughout
    let mut world = World::new("b3/s23").unwrap();
    world.grow(2).unwrap();
    let pattern = [(1 - 6, 0 + 6), (2 - 6, -1 + 6), (0 - 6, -2 + 6), (1 - 6, -2 + 6), (2 - 6, -2 + 6)];
    for (x, y) in pattern {
        world.set(x, y).unwrap();
    }
    for _ in 0..4 {
        world.next().unwrap();
    }
    assert_eq!(world.depth, 5);
    let mut expected: Vec<(i128, i128)> = pattern.iter().map(|&(x, y)| (x + 8, y - 8)).collect();
    expected.sort();
    assert_eq!(live_set(&world, 16), expected);
}

#[test]
fn grow_keeps_centered_content() {
    let mut world = World::new("b3/s23").unwrap();
    for (x, y) in [(0, 0), (-4, 3), (2, 2), (3, -4)] {
        world.set(x, y).unwrap();
    }
    let before = live_set(&world, 4);
    world.grow(2).unwrap();
    assert_eq!(world.depth, 5);
    // the old content is unchanged and everything outside the old span is
    // dead
    assert_eq!(live_set(&world, 16), before);
}

#[test]
fn acorn_round_trips_through_the_world() {
    let text = b"#N Acorn\n#O Charles Corderman\nx = 7, y = 3, rule = B3/S23\nbo5b$3bo3b$2o2b3o!";
    let (_, mut coords) = parse_rle::read_rle(text).unwrap();
    let mut world = World::new("b3/s23").unwrap();
    world.grow(2).unwrap();
    world.set_cells(&coords).unwrap();
    coords.sort();
    assert_eq!(live_set(&world, 16), coords);
}

#[test]
fn leaf_result_of_empty_leaf_is_empty() {
    let table = RuleSet::new(0b1000, 0b1100).compute_rules();
    let leaf = Cell::leaf(0, 0, 0, 0);
    assert_eq!(leaf.compute_leaf_res(&table), 0);
}

#[test]
fn result_composition_on_uniform_tilings() {
    // composing results across two adjacent levels agrees with the leaf
    // result where the four copies tile consistently: the empty leaf is
    // such a tiling
    let table = RuleSet::new(0b1000, 0b1100).compute_rules();
    let mut buf = CellBuf::new();
    let l = buf.leaf(0, 0, 0, 0);
    let n = buf.intern(l, l, l, l);
    let cell = buf.get(n);
    let r16 = cell.compute_node_res16(&table, &buf);
    let inner = buf.insert(r16);
    let inner_cell = buf.get(inner);
    let final_rule = inner_cell.compute_leaf_res(&table);
    let empty_leaf = Cell::leaf(0, 0, 0, 0);
    assert_eq!(final_rule, empty_leaf.compute_leaf_res(&table));
}
