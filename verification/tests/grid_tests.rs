use hashlife::grid::{Cell, Universe};
use hashlife::rule;

#[test]
fn rule_matches_life() {
    assert!(rule::next_state(true, 2));
    assert!(rule::next_state(true, 3));
    assert!(!rule::next_state(true, 1));
    assert!(!rule::next_state(true, 4));
    assert!(rule::next_state(false, 3));
    assert!(!rule::next_state(false, 2));
    assert!(!rule::next_state(false, 0));
}

#[test]
fn new_universe_is_dead() {
    let u = Universe::new(8, 6);
    assert_eq!(u.width(), 8);
    assert_eq!(u.height(), 6);
    assert_eq!(u.count_alive(), 0);
    assert_eq!(u.get_cell(3, 3), Cell::Dead);
    assert_eq!(u.get_cell(100, 100), Cell::Dead);
}

#[test]
fn set_toggle_and_clear() {
    let mut u = Universe::new(10, 10);
    u.set_cell(2, 3, Cell::Alive);
    assert_eq!(u.get_cell(2, 3), Cell::Alive);
    u.toggle_cell(2, 3);
    assert_eq!(u.get_cell(2, 3), Cell::Dead);
    u.toggle_cell(4, 4);
    assert_eq!(u.get_cell(4, 4), Cell::Alive);
    // out-of-bounds writes are ignored
    u.set_cell(50, 50, Cell::Alive);
    u.toggle_cell(50, 50);
    assert_eq!(u.count_alive(), 1);
    u.clear();
    assert_eq!(u.count_alive(), 0);
}

#[test]
fn set_cells_places_a_list() {
    let mut u = Universe::new(6, 6);
    u.set_cells(&[(1, 1), (2, 2), (3, 3), (99, 99)]);
    assert_eq!(u.count_alive(), 3);
    assert_eq!(u.get_cell(1, 1), Cell::Alive);
    assert_eq!(u.get_cell(2, 2), Cell::Alive);
    assert_eq!(u.get_cell(3, 3), Cell::Alive);
    assert_eq!(u.get_cell(1, 2), Cell::Dead);
}

#[test]
fn blinker_oscillates_on_the_grid() {
    let mut u = Universe::new(5, 5);
    u.set_cells(&[(1, 2), (2, 2), (3, 2)]);
    u.tick();
    assert_eq!(u.get_cell(2, 1), Cell::Alive);
    assert_eq!(u.get_cell(2, 2), Cell::Alive);
    assert_eq!(u.get_cell(2, 3), Cell::Alive);
    assert_eq!(u.get_cell(1, 2), Cell::Dead);
    assert_eq!(u.get_cell(3, 2), Cell::Dead);
    assert_eq!(u.count_alive(), 3);
    u.tick();
    assert_eq!(u.get_cell(1, 2), Cell::Alive);
    assert_eq!(u.get_cell(2, 2), Cell::Alive);
    assert_eq!(u.get_cell(3, 2), Cell::Alive);
    assert_eq!(u.count_alive(), 3);
}

#[test]
fn block_is_a_still_life() {
    let mut u = Universe::new(4, 4);
    u.set_cells(&[(1, 1), (1, 2), (2, 1), (2, 2)]);
    u.tick();
    assert_eq!(u.count_alive(), 4);
    assert_eq!(u.get_cell(1, 1), Cell::Alive);
    assert_eq!(u.get_cell(2, 2), Cell::Alive);
}

#[test]
fn lonely_cell_dies() {
    let mut u = Universe::new(3, 3);
    u.set_cell(1, 1, Cell::Alive);
    u.tick();
    assert_eq!(u.count_alive(), 0);
}

#[test]
fn gosper_gun_has_thirty_six_cells() {
    let mut u = Universe::new(40, 12);
    u.set_gosper_glider_gun(0, 0);
    assert_eq!(u.count_alive(), 36);
    assert_eq!(u.get_cell(5, 1), Cell::Alive);
    assert_eq!(u.get_cell(5, 2), Cell::Alive);
    assert_eq!(u.get_cell(6, 1), Cell::Alive);
    assert_eq!(u.get_cell(6, 2), Cell::Alive);
    // the detached square on the gun's left edge is a still life
    u.tick();
    assert_eq!(u.get_cell(5, 1), Cell::Alive);
    assert_eq!(u.get_cell(5, 2), Cell::Alive);
    assert_eq!(u.get_cell(6, 1), Cell::Alive);
    assert_eq!(u.get_cell(6, 2), Cell::Alive);
}

#[test]
fn gun_offsets_shift_the_pattern() {
    let mut u = Universe::new(50, 20);
    u.set_gosper_glider_gun(3, 2);
    assert_eq!(u.count_alive(), 36);
    assert_eq!(u.get_cell(8, 3), Cell::Alive);
    assert_eq!(u.get_cell(5, 1), Cell::Dead);
}

#[test]
fn randomize_keeps_dimensions() {
    let mut u = Universe::new(12, 9);
    u.randomize();
    assert_eq!(u.width(), 12);
    assert_eq!(u.height(), 9);
    assert!(u.count_alive() <= 12 * 9);
}
