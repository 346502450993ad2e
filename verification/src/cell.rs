use crate::direction::Direction;
use vstd::prelude::*;

verus! {

/// The walls around one cell of the grid, one bit for each side.
#[derive(Clone, Copy, Debug, PartialEq, Eq, Structural)]
pub struct Cell {
    pub bits: u8,
}

pub const TOP: u8 = 1;

pub const BOTTOM: u8 = 2;

pub const LEFT: u8 = 4;

pub const RIGHT: u8 = 8;

pub const ALL: u8 = 15;

pub const NONE: u8 = 0;

/// Clearing the bit `m` of `b` leaves the bit `q` set exactly when `q` is
/// another bit than `m` and was set before.
pub proof fn lemma_clear_bit(b: u8, m: u8, q: u8)
    requires
        m == 1 || m == 2 || m == 4 || m == 8,
        q == 1 || q == 2 || q == 4 || q == 8,
    ensures
        ((b & (!m & 15)) & q != 0) == (q != m && b & q != 0),
        (15u8 & q) != 0,
        (0u8 & q) == 0,
        (!m & 15) & 15 == (!m & 15),
{
    assert(((b & (!m & 15)) & q != 0) == (q != m && b & q != 0) && (15u8 & q) != 0 && (0u8 & q)
        == 0 && (!m & 15) & 15 == (!m & 15)) by (bit_vector)
        requires
            m == 1 || m == 2 || m == 4 || m == 8,
            q == 1 || q == 2 || q == 4 || q == 8,
    ;
}

/// Setting the bit `m` of `b` leaves the bit `q` set exactly when `q` is `m`
/// or was set before.
pub proof fn lemma_set_bit(b: u8, m: u8, q: u8)
    requires
        m == 1 || m == 2 || m == 4 || m == 8,
        q == 1 || q == 2 || q == 4 || q == 8,
    ensures
        ((b | m) & q != 0) == (q == m || b & q != 0),
{
    assert(((b | m) & q != 0) == (q == m || b & q != 0)) by (bit_vector)
        requires
            m == 1 || m == 2 || m == 4 || m == 8,
            q == 1 || q == 2 || q == 4 || q == 8,
    ;
}

/// Bits that were taken from a byte by a mask are bits of that byte, and
/// being made of bits of another byte carries over from byte to byte. A byte
/// made of bits of the four flags is at most 15.
pub proof fn lemma_bits_narrow(a: u8, b: u8, c: u8, m: u8)
    ensures
        a & a == a,
        (a & m) & a == (a & m),
        c & b == c && b & a == b ==> c & a == c,
        a & 15 == a ==> a <= 15,
{
    assert(a & a == a && (a & m) & a == (a & m) && (c & b == c && b & a == b ==> c & a == c) && (a
        & 15 == a ==> a <= 15)) by (bit_vector);
}

impl Cell {
    /// Whether the wall towards `d` stands.
    pub open spec fn wall(self, d: Direction) -> bool {
        self.bits & d.flag() != 0
    }

    /// Whether every flag of `other` is set in this cell.
    pub open spec fn has(self, other: Cell) -> bool {
        self.bits & other.bits == other.bits
    }

    pub fn top() -> (r: Cell)
        ensures
            r.bits == TOP,
    {
        Cell { bits: TOP }
    }

    pub fn bottom() -> (r: Cell)
        ensures
            r.bits == BOTTOM,
    {
        Cell { bits: BOTTOM }
    }

    pub fn left() -> (r: Cell)
        ensures
            r.bits == LEFT,
    {
        Cell { bits: LEFT }
    }

    pub fn right() -> (r: Cell)
        ensures
            r.bits == RIGHT,
    {
        Cell { bits: RIGHT }
    }

    /// The cell with all four walls standing.
    pub fn all() -> (r: Cell)
        ensures
            r.bits == ALL,
            forall|d: Direction| r.wall(d),
    {
        proof {
            assert forall|d: Direction| (15u8 & d.flag()) != 0 by {
                lemma_clear_bit(0, 1, d.flag());
            }
        }
        Cell { bits: ALL }
    }

    /// The cell without walls.
    pub fn none() -> (r: Cell)
        ensures
            r.bits == NONE,
            forall|d: Direction| !r.wall(d),
    {
        proof {
            assert forall|d: Direction| (0u8 & d.flag()) == 0 by {
                lemma_clear_bit(0, 1, d.flag());
            }
        }
        Cell { bits: NONE }
    }

    pub fn bits(&self) -> (r: u8)
        ensures
            r == self.bits,
    {
        self.bits
    }

    /// The flags of both cells together.
    pub fn union(self, other: Cell) -> (r: Cell)
        ensures
            r.bits == self.bits | other.bits,
    {
        Cell { bits: self.bits | other.bits }
    }

    /// The flags that both cells have.
    pub fn intersection(self, other: Cell) -> (r: Cell)
        ensures
            r.bits == self.bits & other.bits,
    {
        Cell { bits: self.bits & other.bits }
    }

    /// The four flags turned over; no other bit is ever set in the result.
    pub fn complement(self) -> (r: Cell)
        ensures
            r.bits == !self.bits & ALL,
    {
        Cell { bits: !self.bits & ALL }
    }

    pub fn contains(&self, other: Cell) -> (r: bool)
        ensures
            r == self.has(other),
    {
        self.bits & other.bits == other.bits
    }

    /// Whether the wall towards `direction` stands.
    pub fn has_wall(&self, direction: Direction) -> (r: bool)
        ensures
            r == self.wall(direction),
    {
        self.bits & direction.get_flag() != 0
    }

    pub fn set_wall(&mut self, direction: Direction)
        ensures
            final(self).bits == old(self).bits | direction.flag(),
            forall|d: Direction| #[trigger] final(self).wall(d) == (d == direction || old(self).wall(d)),
    {
        let ghost before = *self;
        self.bits = self.bits | direction.get_flag();
        proof {
            assert forall|d: Direction| #[trigger] self.wall(d) == (d == direction || before.wall(d)) by {
                lemma_set_bit(before.bits, direction.flag(), d.flag());
            }
        }
    }

    pub fn clear_wall(&mut self, direction: Direction)
        ensures
            final(self).bits == old(self).bits & direction.mask().bits,
            forall|d: Direction| #[trigger] final(self).wall(d) == (d != direction && old(self).wall(d)),
    {
        let ghost before = *self;
        self.bits = self.bits & direction.get_mask().bits;
        proof {
            assert forall|d: Direction| #[trigger] self.wall(d) == (d != direction && before.wall(d)) by {
                lemma_clear_bit(before.bits, direction.flag(), d.flag());
            }
        }
    }
}

} // verus!
