use hashlife::hashlife::{HashLifeUniverse, QuadTree};

#[test]
fn quadtree_leaf_and_node_records() {
    let dead = QuadTree::new_cell(false);
    let live = QuadTree::new_cell(true);
    assert_eq!(dead.population(), 0);
    assert_eq!(live.population(), 1);
    assert_eq!(dead.size(), 1);
    let node = QuadTree::new_node(3, 0, 0, 0, 0, 7);
    assert_eq!(node.size(), 8);
    assert_eq!(node.population(), 7);
}

#[test]
fn empty_universe_starts_at_generation_zero() {
    let u = HashLifeUniverse::new();
    assert_eq!(u.generation(), 0);
    assert_eq!(u.population(), 0);
    assert_eq!(u.root_level(), 2);
    assert!(!u.get_cell(0, 0));
}

#[test]
fn set_then_get_reads_back_and_leaves_others_alone() {
    let mut u = HashLifeUniverse::new();
    u.set_cell(-1, 0, true);
    u.set_cell(1, 1, true);
    assert!(u.get_cell(-1, 0));
    assert!(u.get_cell(1, 1));
    // a fresh write reads back true and all previously set cells keep
    // their state
    u.set_cell(0, -2, true);
    assert!(u.get_cell(0, -2));
    assert!(u.get_cell(-1, 0));
    assert!(u.get_cell(1, 1));
    assert!(!u.get_cell(0, 0));
    assert_eq!(u.population(), 3);
    // clearing a cell works too
    u.set_cell(-1, 0, false);
    assert!(!u.get_cell(-1, 0));
    assert_eq!(u.population(), 2);
}

#[test]
fn out_of_bounds_reads_are_dead_and_writes_grow() {
    let mut u = HashLifeUniverse::new();
    // far outside the 4 by 4 start region
    assert!(!u.get_cell(100, -100));
    u.set_cell(100, -100, true);
    assert!(u.get_cell(100, -100));
    assert_eq!(u.population(), 1);
    assert!(u.root_level() > 2);
}

#[test]
fn expand_raises_level_by_one_and_preserves_cells() {
    let mut u = HashLifeUniverse::new();
    u.set_cell(0, 0, true);
    u.set_cell(-2, 1, true);
    let level_before = u.root_level();
    let mut before = Vec::new();
    for x in -2..2 {
        for y in -2..2 {
            before.push(u.get_cell(x, y));
        }
    }
    u.expand();
    assert_eq!(u.root_level(), level_before + 1);
    let mut idx = 0;
    for x in -2..2 {
        for y in -2..2 {
            assert_eq!(u.get_cell(x, y), before[idx]);
            idx += 1;
        }
    }
    assert_eq!(u.population(), 2);
}

#[test]
fn step_on_empty_universe_advances_generation_only() {
    let mut u = HashLifeUniverse::new();
    u.step();
    assert_eq!(u.population(), 0);
    assert!(u.generation() > 0);
    assert_eq!(u.generation(), 2);
    u.step();
    assert_eq!(u.population(), 0);
    assert_eq!(u.generation(), 4);
}

#[test]
fn clear_resets_everything() {
    let mut u = HashLifeUniverse::new();
    u.set_cell(3, 3, true);
    u.step();
    u.clear();
    assert_eq!(u.generation(), 0);
    assert_eq!(u.population(), 0);
    assert_eq!(u.root_level(), 2);
    assert!(!u.get_cell(3, 3));
}

#[test]
fn tromino_becomes_a_block() {
    let mut u = HashLifeUniverse::new();
    u.set_cell(0, 0, true);
    u.set_cell(1, 0, true);
    u.set_cell(0, 1, true);
    u.step();
    // after one generation the L-tromino closes into a 2 by 2 block, a
    // still life, so any further generations in the quantum keep it
    assert_eq!(u.generation(), 4);
    assert_eq!(u.population(), 4);
    assert!(u.get_cell(0, 0));
    assert!(u.get_cell(1, 0));
    assert!(u.get_cell(0, 1));
    assert!(u.get_cell(1, 1));
    assert!(!u.get_cell(-1, 0));
    assert!(!u.get_cell(2, 0));
    assert!(!u.get_cell(0, -1));
}

#[test]
fn blinker_returns_to_itself() {
    let mut u = HashLifeUniverse::new();
    u.set_cell(-1, 0, true);
    u.set_cell(0, 0, true);
    u.set_cell(1, 0, true);
    u.step();
    // the quantum of this step is a multiple of the blinker's period
    assert_eq!(u.generation() % 2, 0);
    assert_eq!(u.population(), 3);
    assert!(u.get_cell(-1, 0));
    assert!(u.get_cell(0, 0));
    assert!(u.get_cell(1, 0));
    assert!(!u.get_cell(0, -1));
    assert!(!u.get_cell(0, 1));
    // a second macro-tick, again a multiple of the period
    u.step();
    assert_eq!(u.generation() % 2, 0);
    assert_eq!(u.population(), 3);
    assert!(u.get_cell(-1, 0));
    assert!(u.get_cell(0, 0));
    assert!(u.get_cell(1, 0));
}

#[test]
fn glider_translates_by_one_diagonal_step_in_four_generations() {
    let mut u = HashLifeUniverse::new();
    u.set_cell(0, -1, true);
    u.set_cell(1, 0, true);
    u.set_cell(-1, 1, true);
    u.set_cell(0, 1, true);
    u.set_cell(1, 1, true);
    u.step();
    assert_eq!(u.generation(), 4);
    assert_eq!(u.population(), 5);
    // the same five-cell shape, shifted by (1, 1)
    assert!(u.get_cell(1, 0));
    assert!(u.get_cell(2, 1));
    assert!(u.get_cell(0, 2));
    assert!(u.get_cell(1, 2));
    assert!(u.get_cell(2, 2));
    assert!(!u.get_cell(0, -1));
    assert!(!u.get_cell(-1, 1));
    // a second step advances eight more generations: two further
    // diagonal moves, for a total translation of (3, 3)
    u.step();
    assert_eq!(u.generation(), 12);
    assert_eq!(u.population(), 5);
    assert!(u.get_cell(3, 2));
    assert!(u.get_cell(4, 3));
    assert!(u.get_cell(2, 4));
    assert!(u.get_cell(3, 4));
    assert!(u.get_cell(4, 4));
}

#[test]
fn identical_blocks_share_their_canonical_node() {
    let mut u = HashLifeUniverse::new();
    u.set_cell(4, 4, true);
    u.set_cell(-8, -8, true);
    // both 2 by 2 aligned blocks hold one live cell in their north-west
    // corner, so interning must hand out one shared node for them
    assert_eq!(u.subtree(4, 4, 1), u.subtree(-8, -8, 1));
    assert_eq!(u.subtree(4, 4, 0), u.subtree(-8, -8, 0));
    // a block with different content is a different node
    assert_ne!(u.subtree(4, 4, 1), u.subtree(6, 6, 1));
}

#[test]
fn rebuilding_an_existing_pattern_interns_nothing_new() {
    let mut u = HashLifeUniverse::new();
    u.set_cell(4, 4, true);
    let count = u.node_count();
    let root = u.subtree(0, 0, u.root_level());
    // writing the value a cell already has reuses every canonical node
    u.set_cell(4, 4, true);
    assert_eq!(u.node_count(), count);
    assert_eq!(u.subtree(0, 0, u.root_level()), root);
}
