pub mod a_star;
pub mod cell;
pub mod direction;
pub mod maze_generator;
pub mod node;
pub mod perfect;
pub mod termination;
pub mod universe;
