use crate::a_star::{Pathfinder, SearchState};
use crate::cell::Cell;
use crate::maze_generator::{border_stands, connected, inside, mirrored, passages, MazeGenerator};
use vstd::prelude::*;

verus! {

/// A maze with the cells at which a search through it starts and ends.
pub struct Universe {
    pub width: u32,
    pub height: u32,
    pub cells: Vec<Cell>,
    pub start_coordinates: (u32, u32),
    pub end_coordinates: (u32, u32),
    pub current: (u32, u32),
}

/// The cells of `cells`, in a vector of their own.
fn copy_cells(cells: &Vec<Cell>) -> (r: Vec<Cell>)
    ensures
        r@ == cells@,
{
    let mut r: Vec<Cell> = Vec::new();
    let mut i: usize = 0;
    while i < cells.len()
        invariant
            i <= cells@.len(),
            r@ == cells@.take(i as int),
        decreases cells@.len() - i,
    {
        r.push(cells[i]);
        assert(cells@.take(i + 1) =~= cells@.take(i as int).push(cells@[i as int]));
        i += 1;
    }
    assert(cells@.take(i as int) =~= cells@);
    r
}

impl Universe {
    /// The place that the positions `coordinates` has among the cells.
    pub open spec fn place(&self, coordinates: (u32, u32)) -> int {
        coordinates.0 as int * self.width as int + coordinates.1 as int
    }

    /// A universe of `height` rows and `width` columns with a maze carved
    /// from the top left corner. Its end is the position whose row is
    /// `width - 1` and whose column is `height - 1`.
    pub fn new(width: u32, height: u32) -> (r: Universe)
        requires
            width >= 1,
            height >= 1,
            height as int * width as int <= u32::MAX,
        ensures
            r.width == width,
            r.height == height,
            r.start_coordinates == (0u32, 0u32),
            r.end_coordinates == ((width - 1) as u32, (height - 1) as u32),
            r.current == (0u32, 0u32),
            r.cells@.len() == height as int * width as int,
            forall|i: int| 0 <= i < r.cells@.len() ==> (#[trigger] r.cells@[i]).bits <= 15,
            mirrored(r.cells@, height as int, width as int),
            border_stands(r.cells@, height as int, width as int),
            passages(r.cells@) == height as int * width as int - 1,
            forall|row: int, col: int|
                inside(height as int, width as int, row, col) ==> #[trigger] connected(
                    r.cells@,
                    height as int,
                    width as int,
                    0,
                    0,
                    row,
                    col,
                ),
    {
        let start_coordinates = (0, 0);
        let end_coordinates = (width - 1, height - 1);

        let maze_generator = MazeGenerator { width, height, start_coordinates };

        let cells = maze_generator.generate();

        Universe {
            width,
            height,
            cells,
            start_coordinates,
            end_coordinates,
            current: start_coordinates,
        }
    }

    pub fn width(&self) -> (r: u32)
        ensures
            r == self.width,
    {
        self.width
    }

    pub fn height(&self) -> (r: u32)
        ensures
            r == self.height,
    {
        self.height
    }

    pub fn start_index(&self) -> (r: usize)
        requires
            self.place(self.start_coordinates) <= u32::MAX,
        ensures
            r == self.place(self.start_coordinates),
    {
        assert(0 <= self.start_coordinates.0 as int * self.width as int) by (nonlinear_arith);
        (self.start_coordinates.0 * self.width + self.start_coordinates.1) as usize
    }

    pub fn end_index(&self) -> (r: usize)
        requires
            self.place(self.end_coordinates) <= u32::MAX,
        ensures
            r == self.place(self.end_coordinates),
    {
        assert(0 <= self.end_coordinates.0 as int * self.width as int) by (nonlinear_arith);
        (self.end_coordinates.0 * self.width + self.end_coordinates.1) as usize
    }

    pub fn current_index(&self) -> (r: usize)
        requires
            self.place(self.current) <= u32::MAX,
        ensures
            r == self.place(self.current),
    {
        assert(0 <= self.current.0 as int * self.width as int) by (nonlinear_arith);
        (self.current.0 * self.width + self.current.1) as usize
    }

    /// A search through a copy of the maze from the start to the end.
    pub fn get_pathfinder(&self) -> (r: Pathfinder)
        requires
            self.height as int * self.width as int <= u32::MAX,
            self.cells@.len() == self.height as int * self.width as int,
            0 <= self.place(self.start_coordinates) < self.height as int * self.width as int,
            0 <= self.place(self.end_coordinates) < self.height as int * self.width as int,
        ensures
            r@ == SearchState::initial(
                self.height,
                self.width,
                self.place(self.start_coordinates) as usize,
                self.place(self.end_coordinates) as usize,
                self.cells@,
            ),
            r.wf(),
    {
        Pathfinder::new(
            self.height,
            self.width,
            self.start_index(),
            self.end_index(),
            copy_cells(&self.cells),
        )
    }
}

} // verus!
