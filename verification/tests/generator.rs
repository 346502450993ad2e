use maze_astar::cell::Cell;
use maze_astar::direction::Direction;
use maze_astar::maze_generator::{MazeGenerator, MazeGeneratorContext};

#[test]
fn test_generate() {
    let maze_generator = MazeGenerator { height: 4, width: 4, ..MazeGenerator::default() };

    let cells = maze_generator.generate();

    assert_eq!(cells.len(), 16);

    let cells = MazeGenerator::default().generate();

    assert_eq!(cells.len(), 4096);
}

#[test]
fn generated_grid_has_a_cell_for_each_position() {
    let maze_generator = MazeGenerator { height: 4, width: 4, ..MazeGenerator::default() };
    assert_eq!(maze_generator.generate().len(), 16);
    let wide = MazeGenerator { height: 3, width: 9, start_coordinates: (2, 5) };
    assert_eq!(wide.generate().len(), 27);
}

#[test]
fn default_generator_is_64_by_64_from_the_corner() {
    let maze_generator = MazeGenerator::default();
    assert_eq!(maze_generator.height, 64);
    assert_eq!(maze_generator.width, 64);
    assert_eq!(maze_generator.start_coordinates, (0, 0));
}

#[test]
fn single_cell_keeps_its_walls() {
    let maze_generator = MazeGenerator { height: 1, width: 1, start_coordinates: (0, 0) };
    assert_eq!(maze_generator.generate(), vec![Cell::all()]);
}

fn passages(height: usize, width: usize, cells: &[Cell]) -> usize {
    let mut count = 0;
    for row in 0..height {
        for col in 0..width {
            let bits = cells[row * width + col].bits();
            if col + 1 < width && bits & 8 == 0 {
                count += 1;
            }
            if row + 1 < height && bits & 2 == 0 {
                count += 1;
            }
        }
    }
    count
}

fn reached(height: usize, width: usize, cells: &[Cell], start: usize) -> usize {
    let mut seen = vec![false; height * width];
    let mut stack = vec![start];
    seen[start] = true;
    let mut count = 0;
    while let Some(i) = stack.pop() {
        count += 1;
        let row = i / width;
        let col = i % width;
        let bits = cells[i].bits();
        let mut next = Vec::new();
        if row > 0 && bits & 1 == 0 {
            next.push(i - width);
        }
        if row + 1 < height && bits & 2 == 0 {
            next.push(i + width);
        }
        if col > 0 && bits & 4 == 0 {
            next.push(i - 1);
        }
        if col + 1 < width && bits & 8 == 0 {
            next.push(i + 1);
        }
        for j in next {
            if !seen[j] {
                seen[j] = true;
                stack.push(j);
            }
        }
    }
    count
}

#[test]
fn generated_maze_is_a_spanning_tree() {
    for (height, width, start) in
        [(1u32, 1u32, (0u32, 0u32)), (1, 6, (0, 3)), (7, 1, (6, 0)), (5, 8, (2, 2)), (16, 16, (0, 0))]
    {
        for _ in 0..5 {
            let maze = MazeGenerator { height, width, start_coordinates: start };
            let cells = maze.generate();
            let h = height as usize;
            let w = width as usize;
            assert_eq!(cells.len(), h * w);
            assert_eq!(passages(h, w, &cells), h * w - 1);
            let from = start.0 as usize * w + start.1 as usize;
            assert_eq!(reached(h, w, &cells, from), h * w);
        }
    }
}

#[test]
fn generated_walls_are_mirrored() {
    let height = 9usize;
    let width = 12usize;
    let maze = MazeGenerator { height: 9, width: 12, start_coordinates: (4, 4) };
    let cells = maze.generate();
    for row in 0..height {
        for col in 0..width {
            let cell = cells[row * width + col];
            if col + 1 < width {
                let other = cells[row * width + col + 1];
                assert_eq!(cell.has_wall(Direction::Right), other.has_wall(Direction::Left));
            } else {
                assert!(cell.has_wall(Direction::Right));
            }
            if row + 1 < height {
                let other = cells[(row + 1) * width + col];
                assert_eq!(cell.has_wall(Direction::Down), other.has_wall(Direction::Up));
            } else {
                assert!(cell.has_wall(Direction::Down));
            }
            if row == 0 {
                assert!(cell.has_wall(Direction::Up));
            }
            if col == 0 {
                assert!(cell.has_wall(Direction::Left));
            }
        }
    }
}

#[test]
fn context_starts_with_every_wall_and_no_mark() {
    let maze = MazeGenerator { height: 2, width: 3, start_coordinates: (0, 0) };
    let mut ctx = MazeGeneratorContext::new(&maze);
    assert_eq!(ctx.cells, vec![Cell::all(); 6]);
    assert_eq!(ctx.visited, vec![false; 6]);
    assert_eq!(ctx.width, 3);
    assert_eq!(ctx.index((1, 2)), 5);
    ctx.clear_wall((1, 2), &Direction::Left);
    assert_eq!(ctx.cells[5].bits(), 0b1011);
    ctx.clear_wall((1, 2), &Direction::Up);
    assert_eq!(ctx.cells[5].bits(), 0b1010);
    assert_eq!(ctx.cells[4], Cell::all());
}

#[test]
fn neighbors_stop_at_the_border() {
    let maze = MazeGenerator { height: 2, width: 3, start_coordinates: (0, 0) };
    assert_eq!(maze.get_adjusted_coordinates((0, 0), &Direction::Up), None);
    assert_eq!(maze.get_adjusted_coordinates((0, 0), &Direction::Left), None);
    assert_eq!(maze.get_adjusted_coordinates((0, 0), &Direction::Down), Some((1, 0)));
    assert_eq!(maze.get_adjusted_coordinates((0, 0), &Direction::Right), Some((0, 1)));
    assert_eq!(maze.get_adjusted_coordinates((1, 2), &Direction::Up), Some((0, 2)));
    assert_eq!(maze.get_adjusted_coordinates((1, 2), &Direction::Left), Some((1, 1)));
    assert_eq!(maze.get_adjusted_coordinates((1, 2), &Direction::Down), None);
    assert_eq!(maze.get_adjusted_coordinates((1, 2), &Direction::Right), None);
}

#[test]
fn generate_from_marks_and_carves_everything() {
    let maze = MazeGenerator { height: 3, width: 3, start_coordinates: (1, 1) };
    let mut ctx = MazeGeneratorContext::new(&maze);
    maze.generate_from(&mut ctx, (1, 1));
    assert_eq!(ctx.visited, vec![true; 9]);
    assert_eq!(passages(3, 3, &ctx.cells), 8);
}

#[test]
fn generate_from_stays_among_unmarked_cells() {
    let maze = MazeGenerator { height: 3, width: 3, start_coordinates: (0, 0) };
    let mut ctx = MazeGeneratorContext::new(&maze);
    // the middle column counts as entered already
    ctx.visited[1] = true;
    ctx.visited[4] = true;
    ctx.visited[7] = true;
    maze.generate_from(&mut ctx, (0, 0));
    assert_eq!(ctx.visited, vec![true, true, false, true, true, false, true, true, false]);
    for i in [1usize, 4, 7, 2, 5, 8] {
        assert_eq!(ctx.cells[i], Cell::all());
    }
    // the only tree through the left column
    assert_eq!(ctx.cells[0].bits(), 0b1101);
    assert_eq!(ctx.cells[3].bits(), 0b1100);
    assert_eq!(ctx.cells[6].bits(), 0b1110);
    assert_eq!(passages(3, 3, &ctx.cells), 2);
}

#[test]
fn generate_from_a_marked_cell_looks_at_its_neighbors() {
    let maze = MazeGenerator { height: 1, width: 3, start_coordinates: (0, 1) };
    let mut ctx = MazeGeneratorContext::new(&maze);
    ctx.visited[1] = true;
    maze.generate_from(&mut ctx, (0, 1));
    assert_eq!(ctx.visited, vec![true, true, true]);
    assert_eq!(ctx.cells[0].bits(), 0b0111);
    assert_eq!(ctx.cells[1].bits(), 0b0011);
    assert_eq!(ctx.cells[2].bits(), 0b1011);
}

#[test]
fn two_cells_have_one_maze() {
    let maze = MazeGenerator { height: 1, width: 2, start_coordinates: (0, 0) };
    let cells = maze.generate();
    assert_eq!(cells[0].bits(), 7);
    assert_eq!(cells[1].bits(), 11);
    for cell in MazeGenerator::default().generate() {
        assert!(cell.bits() <= 15);
    }
}
