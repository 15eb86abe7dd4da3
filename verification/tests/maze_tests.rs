use labyrinth::grid::Coord;
use labyrinth::maze::Maze;

#[test]
fn empty_maze_is_connected_and_bare() {
    let m = Maze::empty();
    assert!(m.is_valid());
    assert_eq!(m.bar_count(), 0);
}

#[test]
fn generated_mazes_are_connected_for_every_count() {
    for tiles in 15..=20u8 {
        let m = Maze::generate(tiles);
        assert!(m.is_valid());
        assert_eq!(m.bar_count(), tiles as usize);
    }
}

#[test]
fn generation_is_stable_over_repeats() {
    for _ in 0..10 {
        let m = Maze::generate(20);
        assert!(m.is_valid());
        assert_eq!(m.bar_count(), 20);
    }
}

#[test]
fn placed_horizontal_bar_blocks_its_edge() {
    let mut m = Maze::empty();
    // slot 0 separates (0, 0) from (0, 1)
    assert!(m.try_place_h(0));
    assert_eq!(m.bar_count(), 1);
    assert!(m.is_valid());
    assert!(m.is_blocked(Coord { x: 0, y: 0 }, Coord { x: 0, y: 1 }));
    assert!(m.is_blocked(Coord { x: 0, y: 1 }, Coord { x: 0, y: 0 }));
    assert!(!m.is_blocked(Coord { x: 1, y: 0 }, Coord { x: 1, y: 1 }));
    assert!(!m.is_blocked(Coord { x: 0, y: 0 }, Coord { x: 1, y: 0 }));
}

#[test]
fn placed_vertical_bar_blocks_its_edge() {
    let mut m = Maze::empty();
    // slot 7 is y = 1, x = 2: separates (2, 1) from (3, 1)
    assert!(m.try_place_v(7));
    assert!(m.is_blocked(Coord { x: 2, y: 1 }, Coord { x: 3, y: 1 }));
    assert!(m.is_blocked(Coord { x: 3, y: 1 }, Coord { x: 2, y: 1 }));
    assert!(!m.is_blocked(Coord { x: 2, y: 1 }, Coord { x: 2, y: 0 }));
}

#[test]
fn occupied_slot_is_refused() {
    let mut m = Maze::empty();
    assert!(m.try_place_h(12));
    assert!(!m.try_place_h(12));
    assert_eq!(m.bar_count(), 1);
}
