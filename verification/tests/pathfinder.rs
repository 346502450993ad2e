use maze_astar::a_star::{manhattan_distance, Pathfinder, PathfinderNode};
use maze_astar::cell::Cell;
use maze_astar::maze_generator::MazeGenerator;

fn walls(top: bool, bottom: bool, left: bool, right: bool) -> Cell {
    let mut cell = Cell::none();
    if top {
        cell = cell.union(Cell::top());
    }
    if bottom {
        cell = cell.union(Cell::bottom());
    }
    if left {
        cell = cell.union(Cell::left());
    }
    if right {
        cell = cell.union(Cell::right());
    }
    cell
}

fn corridor_cells() -> Vec<Cell> {
    vec![
        Cell::top().union(Cell::left()).union(Cell::right()),
        Cell::top().union(Cell::left()).union(Cell::right()),
        Cell::bottom().union(Cell::left()),
        Cell::bottom().union(Cell::right()),
    ]
}

/// Distances from `start` through the passages, found breadth first.
fn distances(height: u32, width: u32, cells: &[Cell], start: usize) -> Vec<Option<usize>> {
    let n = (height * width) as usize;
    let w = width as usize;
    let mut dist: Vec<Option<usize>> = vec![None; n];
    let mut queue = std::collections::VecDeque::new();
    dist[start] = Some(0);
    queue.push_back(start);
    while let Some(i) = queue.pop_front() {
        let row = i / w;
        let col = i % w;
        let bits = cells[i].bits();
        let mut next = Vec::new();
        if row > 0 && bits & 1 == 0 {
            next.push(i - w);
        }
        if row + 1 < height as usize && bits & 2 == 0 {
            next.push(i + w);
        }
        if col > 0 && bits & 4 == 0 {
            next.push(i - 1);
        }
        if col + 1 < w && bits & 8 == 0 {
            next.push(i + 1);
        }
        for j in next {
            if dist[j].is_none() {
                dist[j] = Some(dist[i].unwrap() + 1);
                queue.push_back(j);
            }
        }
    }
    dist
}

#[test]
fn test_with_path() {
    let height = 2;
    let width = 2;
    let cells = corridor_cells();

    let start_index = 0;
    let end_index = 1;

    let mut pathfinder = Pathfinder::new(height, width, start_index, end_index, cells);

    assert_eq!(pathfinder.tick(), Some(start_index));
    assert_eq!(pathfinder.tick(), Some(2));
    assert_eq!(pathfinder.tick(), Some(3));
    assert_eq!(pathfinder.tick(), Some(end_index));
    pathfinder.tick();
    pathfinder.tick();
    pathfinder.tick();

    assert_eq!(pathfinder.done(), true);
    let path = pathfinder.path_rust();
    assert_eq!(path.len(), 4);

    assert_eq!(path[0], start_index as u32);
    assert_eq!(path[3], end_index as u32);
}

#[test]
fn test_no_path() {
    let height = 2;
    let width = 2;
    let cells = vec![
        Cell::top().union(Cell::left()).union(Cell::right()),
        Cell::top().union(Cell::left()).union(Cell::right()).union(Cell::bottom()),
        Cell::bottom().union(Cell::left()),
        Cell::bottom().union(Cell::right()).union(Cell::top()),
    ];

    let start_index = 0;
    let end_index = 1;

    let mut pathfinder = Pathfinder::new(height, width, start_index, end_index, cells);

    assert_eq!(pathfinder.tick(), Some(start_index));
    assert_eq!(pathfinder.tick(), Some(2));
    assert_eq!(pathfinder.tick(), Some(3));
    assert_eq!(pathfinder.tick(), None);
    assert_eq!(pathfinder.tick(), None);
    assert_eq!(pathfinder.tick(), None);
    assert_eq!(pathfinder.tick(), None);

    assert_eq!(pathfinder.done(), true);
    let path = pathfinder.path_rust();
    assert_eq!(path.len(), 0);
}

#[test]
fn test_big_maze() {
    let height = 100;
    let width = 100;
    let maze = MazeGenerator { height, width, start_coordinates: (0, 0) };
    let cells = maze.generate();

    let start_index = 0;
    let end_index = (height * width - 1) as usize;

    let mut pathfinder = Pathfinder::new(height, width, start_index, end_index, cells);

    for _ in 0..(height * width) {
        pathfinder.tick();
    }

    assert_eq!(pathfinder.done(), true);
    assert_eq!(pathfinder.current(), end_index);

    let path = pathfinder.path_rust();
    assert!(path.len() < (height * width) as usize);
}

#[test]
fn corridor_is_walked_in_order() {
    let mut pathfinder = Pathfinder::new(2, 2, 0, 1, corridor_cells());
    assert_eq!(pathfinder.start_index(), 0);
    assert_eq!(pathfinder.end_index(), 1);
    assert_eq!(pathfinder.current(), 0);
    assert!(!pathfinder.done());
    assert_eq!(pathfinder.tick(), Some(0));
    assert_eq!(pathfinder.tick(), Some(2));
    assert_eq!(pathfinder.path_rust(), vec![0, 2]);
    assert_eq!(pathfinder.tick(), Some(3));
    assert_eq!(pathfinder.tick(), Some(1));
    assert!(!pathfinder.done());
    for _ in 0..5 {
        assert_eq!(pathfinder.tick(), None);
        assert!(pathfinder.done());
    }
    assert_eq!(pathfinder.path_rust(), vec![0, 2, 3, 1]);
}

#[test]
fn finished_search_stays_as_it_is() {
    let mut pathfinder = Pathfinder::new(2, 2, 0, 3, corridor_cells());
    while !pathfinder.done() {
        pathfinder.tick();
    }
    let current = pathfinder.current();
    let path = pathfinder.path_rust();
    assert_eq!(current, 3);
    assert_eq!(path, vec![0, 2, 3]);
    for _ in 0..10 {
        assert_eq!(pathfinder.tick(), None);
        assert!(pathfinder.done());
        assert_eq!(pathfinder.current(), current);
        assert_eq!(pathfinder.path_rust(), path);
    }
}

#[test]
fn walled_in_goal_gives_no_path() {
    // 1 x 3: the goal on the right is closed on every side.
    let cells = vec![
        walls(true, true, true, false),
        walls(true, true, false, true),
        walls(true, true, true, true),
    ];
    let mut pathfinder = Pathfinder::new(1, 3, 0, 2, cells);
    assert_eq!(pathfinder.tick(), Some(0));
    assert_eq!(pathfinder.tick(), Some(1));
    assert_eq!(pathfinder.tick(), None);
    assert!(pathfinder.done());
    assert_eq!(pathfinder.path_rust(), Vec::<u32>::new());
    assert_eq!(pathfinder.tick(), None);
}

#[test]
fn start_at_goal_is_done_at_once() {
    let mut pathfinder = Pathfinder::new(1, 1, 0, 0, vec![Cell::all()]);
    assert_eq!(pathfinder.path_rust(), vec![0]);
    assert_eq!(pathfinder.tick(), None);
    assert!(pathfinder.done());
    assert_eq!(pathfinder.path_rust(), vec![0]);
}

#[test]
fn two_cells_take_three_steps() {
    let cells = vec![walls(true, true, true, false), walls(true, true, false, true)];
    let mut pathfinder = Pathfinder::new(1, 2, 0, 1, cells);
    assert_eq!(pathfinder.tick(), Some(0));
    assert_eq!(pathfinder.tick(), Some(1));
    assert!(!pathfinder.done());
    assert_eq!(pathfinder.tick(), None);
    assert!(pathfinder.done());
    assert_eq!(pathfinder.path_rust(), vec![0, 1]);
}

#[test]
fn least_score_leaves_the_frontier_first() {
    // 3 x 3 without inner walls, from the top left to the top right corner.
    let mut cells = Vec::new();
    for row in 0..3 {
        for col in 0..3 {
            cells.push(walls(row == 0, row == 2, col == 0, col == 2));
        }
    }
    let mut pathfinder = Pathfinder::new(3, 3, 0, 2, cells);
    assert_eq!(pathfinder.tick(), Some(0));
    assert_eq!(pathfinder.neighbors(), vec![3, 1]);
    // cell 3 has f = 1 + 3, cell 1 has f = 1 + 1
    assert_eq!(pathfinder.tick(), Some(1));
    assert_eq!(pathfinder.tick(), Some(2));
    assert_eq!(pathfinder.tick(), None);
    assert_eq!(pathfinder.path_rust(), vec![0, 1, 2]);
}

#[test]
fn path_is_as_short_as_breadth_first_search_finds() {
    for (height, width) in [(1u32, 1u32), (1, 7), (6, 1), (5, 5), (8, 13), (20, 20)] {
        for _ in 0..5 {
            let maze = MazeGenerator { height, width, start_coordinates: (0, 0) };
            let cells = maze.generate();
            let end = (height * width - 1) as usize;
            let dist = distances(height, width, &cells, 0);
            let mut pathfinder = Pathfinder::new(height, width, 0, end, cells.clone());
            let mut steps = 0;
            while !pathfinder.done() {
                pathfinder.tick();
                steps += 1;
            }
            assert!(steps <= (height * width + 1) as usize);
            assert_eq!(pathfinder.current(), end);
            let path = pathfinder.path_rust();
            assert_eq!(path.len() - 1, dist[end].unwrap());
            assert_eq!(path[0], 0);
            assert_eq!(*path.last().unwrap() as usize, end);
            for pair in path.windows(2) {
                let a = dist[pair[0] as usize].unwrap();
                let b = dist[pair[1] as usize].unwrap();
                assert_eq!(a + 1, b);
            }
        }
    }
}

#[test]
fn shortest_way_round_an_open_room() {
    // 4 x 4 without inner walls: many shortest paths, each of six moves.
    let mut cells = Vec::new();
    for row in 0..4 {
        for col in 0..4 {
            cells.push(walls(row == 0, row == 3, col == 0, col == 3));
        }
    }
    let mut pathfinder = Pathfinder::new(4, 4, 0, 15, cells);
    while !pathfinder.done() {
        pathfinder.tick();
    }
    assert_eq!(pathfinder.current(), 15);
    assert_eq!(pathfinder.path_rust().len(), 7);
}

#[test]
fn manhattan_distance_adds_both_distances() {
    assert_eq!(manhattan_distance((0, 0), (0, 0)), 0);
    assert_eq!(manhattan_distance((1, 5), (4, 2)), 6);
    assert_eq!(manhattan_distance((4, 2), (1, 5)), 6);
    assert_eq!(manhattan_distance((0, u32::MAX), (u32::MAX, 0)), 2 * (u32::MAX as u64));
}

#[test]
fn index_splits_into_row_and_column() {
    let mut cells = Vec::new();
    for _ in 0..12 {
        cells.push(Cell::all());
    }
    let pathfinder = Pathfinder::new(3, 4, 0, 11, cells);
    assert_eq!(pathfinder.index_to_coordinates_row(0), 0);
    assert_eq!(pathfinder.index_to_coordinates_col(0), 0);
    assert_eq!(pathfinder.index_to_coordinates_row(7), 1);
    assert_eq!(pathfinder.index_to_coordinates_col(7), 3);
    assert_eq!(pathfinder.index_to_coordinates_row(11), 2);
    assert_eq!(pathfinder.index_to_coordinates_col(11), 3);
}

#[test]
fn nodes_are_ordered_by_score_with_none_last() {
    let near = PathfinderNode { index: 0, f_score: Some(2) };
    let far = PathfinderNode { index: 1, f_score: Some(9) };
    let unreached = PathfinderNode { index: 2, f_score: None };
    assert!(near.before(&far));
    assert!(!far.before(&near));
    assert!(!near.before(&near));
    assert!(far.before(&unreached));
    assert!(!unreached.before(&far));
    assert!(!unreached.before(&unreached));
    assert!(near < far);
    assert!(far > near);
    assert!(far < unreached);
    assert!(unreached > near);
    assert_eq!(near.partial_cmp(&far), Some(std::cmp::Ordering::Less));
    assert_eq!(unreached.partial_cmp(&far), Some(std::cmp::Ordering::Greater));
    assert_eq!(unreached.partial_cmp(&unreached), Some(std::cmp::Ordering::Equal));
    assert_eq!(near.partial_cmp(&near), Some(std::cmp::Ordering::Equal));
    assert!(near == PathfinderNode { index: 7, f_score: Some(2) });
    assert!(near != far);
    assert!(unreached == PathfinderNode { index: 0, f_score: None });
    assert!(unreached != near);
}

#[test]
fn search_ends_whatever_the_walls_are() {
    // Grids with rings of passages, with and without a way to the goal.
    for (height, width) in [(1u32, 1u32), (2, 2), (3, 5), (6, 6)] {
        for closed_goal in [false, true] {
            let n = (height * width) as usize;
            let mut cells = Vec::new();
            for row in 0..height {
                for col in 0..width {
                    cells.push(walls(row == 0, row == height - 1, col == 0, col == width - 1));
                }
            }
            if closed_goal {
                cells[n - 1] = Cell::all();
                if height > 1 {
                    let above = n - 1 - width as usize;
                    cells[above] = cells[above].union(Cell::bottom());
                }
                if width > 1 {
                    cells[n - 2] = cells[n - 2].union(Cell::right());
                }
            }
            let mut pathfinder = Pathfinder::new(height, width, 0, n - 1, cells);
            let mut steps = 0;
            while !pathfinder.done() {
                pathfinder.tick();
                steps += 1;
                assert!(steps <= n * n + 2);
            }
            let path = pathfinder.path_rust();
            if closed_goal && n > 1 {
                assert_ne!(pathfinder.current(), n - 1);
                assert!(path.is_empty());
            } else {
                assert_eq!(pathfinder.current(), n - 1);
                assert_eq!(path.len() as u32, height + width - 1);
            }
        }
    }
}

#[test]
fn path_passes_no_wall() {
    let height = 12u32;
    let width = 9u32;
    let maze = MazeGenerator { height, width, start_coordinates: (3, 3) };
    let cells = maze.generate();
    let mut pathfinder = Pathfinder::new(height, width, 30, 77, cells.clone());
    while !pathfinder.done() {
        pathfinder.tick();
        let partial = pathfinder.path_rust();
        if !partial.is_empty() {
            assert_eq!(partial[0], 30);
            assert_eq!(*partial.last().unwrap() as usize, pathfinder.current());
        }
    }
    let path = pathfinder.path_rust();
    assert_eq!(*path.last().unwrap(), 77);
    for pair in path.windows(2) {
        let a = pair[0] as usize;
        let b = pair[1] as usize;
        let bits = cells[a].bits();
        let w = width as usize;
        let open = (b + w == a && bits & 1 == 0)
            || (a + w == b && bits & 2 == 0)
            || (b + 1 == a && a % w > 0 && bits & 4 == 0)
            || (a + 1 == b && b % w > 0 && bits & 8 == 0);
        assert!(open);
    }
}
