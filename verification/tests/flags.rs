use maze_astar::cell::Cell;
use maze_astar::direction::Direction;

#[test]
fn flags_have_their_bits() {
    assert_eq!(Cell::top().bits(), 0b0001);
    assert_eq!(Cell::bottom().bits(), 0b0010);
    assert_eq!(Cell::left().bits(), 0b0100);
    assert_eq!(Cell::right().bits(), 0b1000);
    assert_eq!(Cell::all().bits(), 0b1111);
    assert_eq!(Cell::none().bits(), 0);
}

#[test]
fn set_and_clear_change_one_wall() {
    let mut cell = Cell::none();
    cell.set_wall(Direction::Up);
    assert_eq!(cell.bits(), 1);
    cell.set_wall(Direction::Right);
    assert_eq!(cell.bits(), 9);
    cell.set_wall(Direction::Right);
    assert_eq!(cell.bits(), 9);
    cell.set_wall(Direction::Down);
    cell.set_wall(Direction::Left);
    assert_eq!(cell, Cell::all());
    cell.clear_wall(Direction::Left);
    assert_eq!(cell.bits(), 0b1011);
    assert!(!cell.has_wall(Direction::Left));
    assert!(cell.has_wall(Direction::Up));
    cell.clear_wall(Direction::Left);
    assert_eq!(cell.bits(), 0b1011);
    cell.clear_wall(Direction::Up);
    cell.clear_wall(Direction::Down);
    cell.clear_wall(Direction::Right);
    assert_eq!(cell, Cell::none());
}

#[test]
fn flag_algebra() {
    let corner = Cell::top().union(Cell::left());
    assert_eq!(corner.bits(), 5);
    assert!(corner.contains(Cell::top()));
    assert!(corner.contains(corner));
    assert!(!corner.contains(Cell::right()));
    assert!(!corner.contains(Cell::all()));
    assert!(corner.contains(Cell::none()));
    assert_eq!(corner.complement().bits(), 10);
    assert_eq!(Cell::all().complement(), Cell::none());
    assert_eq!(corner.intersection(Cell::top().union(Cell::right())), Cell::top());
}

#[test]
fn directions_have_deltas_opposites_and_masks() {
    assert_eq!(Direction::Up.get_delta(), (-1, 0));
    assert_eq!(Direction::Down.get_delta(), (1, 0));
    assert_eq!(Direction::Left.get_delta(), (0, -1));
    assert_eq!(Direction::Right.get_delta(), (0, 1));
    assert_eq!(Direction::Up.get_opposite(), Direction::Down);
    assert_eq!(Direction::Down.get_opposite(), Direction::Up);
    assert_eq!(Direction::Left.get_opposite(), Direction::Right);
    assert_eq!(Direction::Right.get_opposite(), Direction::Left);
    assert_eq!(Direction::Up.get_mask().bits(), 0b1110);
    assert_eq!(Direction::Down.get_mask().bits(), 0b1101);
    assert_eq!(Direction::Left.get_mask().bits(), 0b1011);
    assert_eq!(Direction::Right.get_mask().bits(), 0b0111);
    assert_eq!(Direction::Up.get_flag(), 1);
    assert_eq!(Direction::Right.get_flag(), 8);
}

#[test]
fn random_directions_are_the_four_in_changing_order() {
    let plain = vec![Direction::Up, Direction::Down, Direction::Left, Direction::Right];
    let mut changed = false;
    for _ in 0..200 {
        let directions = Direction::get_random_directions();
        assert_eq!(directions.len(), 4);
        for d in &plain {
            assert!(directions.contains(d));
        }
        if directions != plain {
            changed = true;
        }
    }
    assert!(changed);
}
