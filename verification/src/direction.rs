use crate::cell::Cell;
use rand::seq::SliceRandom;
use vstd::prelude::*;

verus! {

/// One of the four cardinal moves on the grid.
#[derive(Clone, Copy, Debug, PartialEq, Eq, Structural)]
pub enum Direction {
    Up,
    Down,
    Left,
    Right,
}

/// Reorders `directions` in place by `rand::seq::SliceRandom::shuffle`, driven
/// by `rand::thread_rng`. The shuffle only swaps elements, so the vector holds
/// the same directions as before, each as often as before; the order is left
/// open.
#[verifier::external_body]
fn shuffle(directions: &mut Vec<Direction>)
    ensures
        final(directions)@.to_multiset() == old(directions)@.to_multiset(),
{
    let mut rng = rand::thread_rng();
    directions.shuffle(&mut rng);
}

impl Direction {
    /// The direction that undoes a move in this one.
    pub open spec fn opposite(self) -> Direction {
        match self {
            Direction::Up => Direction::Down,
            Direction::Down => Direction::Up,
            Direction::Left => Direction::Right,
            Direction::Right => Direction::Left,
        }
    }

    /// The change of row and column that a move in this direction makes.
    pub open spec fn delta(self) -> (int, int) {
        match self {
            Direction::Up => (-1, 0),
            Direction::Down => (1, 0),
            Direction::Left => (0, -1),
            Direction::Right => (0, 1),
        }
    }

    /// The bit of a cell that stands for the wall on this side.
    pub open spec fn flag(self) -> u8 {
        match self {
            Direction::Up => 1,
            Direction::Down => 2,
            Direction::Left => 4,
            Direction::Right => 8,
        }
    }

    /// The cell that has every wall but the one on this side.
    pub open spec fn mask(self) -> Cell {
        Cell { bits: !self.flag() & 15 }
    }

    pub fn get_delta(&self) -> (r: (i32, i32))
        ensures
            (r.0 as int, r.1 as int) == self.delta(),
    {
        match self {
            Direction::Up => (-1, 0),
            Direction::Down => (1, 0),
            Direction::Left => (0, -1),
            Direction::Right => (0, 1),
        }
    }

    /// The four directions, each once, in an order drawn at random.
    pub fn get_random_directions() -> (r: Vec<Direction>)
        ensures
            r@.len() == 4,
            forall|d: Direction| r@.contains(d),
    {
        let mut directions: Vec<Direction> = Vec::new();
        directions.push(Direction::Up);
        directions.push(Direction::Down);
        directions.push(Direction::Left);
        directions.push(Direction::Right);
        let ghost before = directions@;
        shuffle(&mut directions);
        proof {
            broadcast use vstd::seq_lib::group_to_multiset_ensures;

            assert(before[0] == Direction::Up && before[1] == Direction::Down && before[2]
                == Direction::Left && before[3] == Direction::Right);
            assert forall|d: Direction| directions@.contains(d) by {
                assert(before.contains(d));
                assert(before.to_multiset().count(d) > 0);
            }
            assert(directions@.len() == directions@.to_multiset().len());
            assert(before.len() == before.to_multiset().len());
        }
        directions
    }

    pub fn get_opposite(&self) -> (r: Direction)
        ensures
            r == self.opposite(),
    {
        match self {
            Direction::Up => Direction::Down,
            Direction::Down => Direction::Up,
            Direction::Left => Direction::Right,
            Direction::Right => Direction::Left,
        }
    }

    /// The bit of a cell that stands for the wall on this side.
    pub fn get_flag(&self) -> (r: u8)
        ensures
            r == self.flag(),
    {
        match self {
            Direction::Up => 1,
            Direction::Down => 2,
            Direction::Left => 4,
            Direction::Right => 8,
        }
    }

    pub fn get_mask(&self) -> (r: Cell)
        ensures
            r == self.mask(),
    {
        let flag: u8 = self.get_flag();
        Cell { bits: !flag & 15 }
    }
}

} // verus!
