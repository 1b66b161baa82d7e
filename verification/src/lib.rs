pub mod boards;
pub mod cell;
pub mod collection;
pub mod coords;
pub mod format;
pub mod determined_solver;
pub mod grid;
pub mod mark;
pub mod mark_occupy;
pub mod model;
pub mod possibility;
pub mod slice;
pub mod solver;
