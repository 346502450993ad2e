use maze_astar::universe::Universe;

#[test]
fn universe_starts_in_the_corner_and_ends_opposite() {
    let universe = Universe::new(5, 5);
    assert_eq!(universe.width(), 5);
    assert_eq!(universe.height(), 5);
    assert_eq!(universe.start_coordinates, (0, 0));
    assert_eq!(universe.end_coordinates, (4, 4));
    assert_eq!(universe.current, (0, 0));
    assert_eq!(universe.cells.len(), 25);
    assert_eq!(universe.start_index(), 0);
    assert_eq!(universe.end_index(), 24);
    assert_eq!(universe.current_index(), 0);
}

#[test]
fn universe_index_is_row_times_width_plus_column() {
    let mut universe = Universe::new(4, 3);
    assert_eq!(universe.cells.len(), 12);
    assert_eq!(universe.end_coordinates, (3, 2));
    assert_eq!(universe.end_index(), 14);
    universe.current = (2, 1);
    assert_eq!(universe.current_index(), 9);
}

#[test]
fn universe_hands_its_maze_to_a_search() {
    let universe = Universe::new(6, 6);
    let mut pathfinder = universe.get_pathfinder();
    assert_eq!(pathfinder.start_index(), 0);
    assert_eq!(pathfinder.end_index(), 35);
    assert_eq!(pathfinder.current(), 0);
    assert!(!pathfinder.done());
    let mut steps = 0;
    while !pathfinder.done() {
        pathfinder.tick();
        steps += 1;
    }
    assert!(steps <= 37);
    let path = pathfinder.path_rust();
    assert_eq!(path[0], 0);
    assert_eq!(*path.last().unwrap(), 35);
    assert_eq!(universe.cells.len(), 36);
}
